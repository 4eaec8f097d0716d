//! Filesystem paths as sequences of components.
//!
//! A path is text; what the rest of the library reasons about is the list of
//! its components.  The separator is `/`.  Repeated separators, a trailing
//! separator and `.` pieces do not contribute components, so `/a//b/./` and
//! `/a/b` have the same components.  An absolute path starts with the root
//! component, written `/`; a relative path that starts with `.` keeps that
//! first `.` as a component.

use vstd::prelude::*;
use vstd::std_specs::iter::IteratorSpec;
use vstd::string::*;

verus! {

broadcast use vstd::string::group_string_axioms;

/// The separator between the pieces of a path.
pub open spec fn separator() -> char {
    '/'
}

/// The root component of an absolute path.
pub open spec fn root_component() -> Seq<char> {
    seq!['/']
}

/// The component that stands for the current directory.
pub open spec fn current_component() -> Seq<char> {
    seq!['.']
}

/// The component that stands for the parent directory.
pub open spec fn parent_component() -> Seq<char> {
    seq!['.', '.']
}

/// The pieces of `text` between its separators, in order.  There is always at
/// least one piece: a separator ends the piece before it and starts a new,
/// empty one, and any other character extends the last piece.
pub open spec fn pieces(text: Seq<char>) -> Seq<Seq<char>>
    decreases text.len(),
{
    if text.len() == 0 {
        seq![Seq::empty()]
    } else if text.last() == separator() {
        pieces(text.drop_last()).push(Seq::empty())
    } else {
        let before = pieces(text.drop_last());
        before.drop_last().push(before.last().push(text.last()))
    }
}

/// Whether a piece names a directory entry: it is neither empty nor `.`.
pub open spec fn is_name(piece: Seq<char>) -> bool {
    piece.len() > 0 && piece != current_component()
}

/// `is_name` as a predicate.
pub open spec fn name_filter() -> spec_fn(Seq<char>) -> bool {
    |piece: Seq<char>| is_name(piece)
}

/// The pieces of `text` that are kept as components.
pub open spec fn names(text: Seq<char>) -> Seq<Seq<char>> {
    pieces(text).filter(name_filter())
}

/// Whether `text` is an absolute path.
pub open spec fn is_absolute(text: Seq<char>) -> bool {
    text.len() > 0 && text[0] == separator()
}

/// What stands in front of the names of `text`: the root component for an
/// absolute path, `.` for a relative path whose first piece is `.`, nothing
/// otherwise.
pub open spec fn leading(text: Seq<char>) -> Seq<Seq<char>> {
    if is_absolute(text) {
        seq![root_component()]
    } else if pieces(text)[0] == current_component() {
        seq![current_component()]
    } else {
        Seq::empty()
    }
}

/// The components of the path `text`.
pub open spec fn components(text: Seq<char>) -> Seq<Seq<char>> {
    leading(text) + names(text)
}

/// Whether `path` lies at or below `base`: the components of `base` are the
/// first components of `path`.
pub open spec fn starts_with(path: Seq<char>, base: Seq<char>) -> bool {
    components(base).is_prefix_of(components(path))
}

/// The final component of `text`, where that is an ordinary name.
pub open spec fn file_name(text: Seq<char>) -> Option<Seq<char>> {
    let kept = names(text);
    if kept.len() > 0 && kept.last() != parent_component() {
        Some(kept.last())
    } else {
        None
    }
}

/// `parts` written one after the other with a separator between neighbours.
pub open spec fn joined(parts: Seq<Seq<char>>) -> Seq<char>
    decreases parts.len(),
{
    if parts.len() == 0 {
        Seq::empty()
    } else if parts.len() == 1 {
        parts[0]
    } else {
        joined(parts.drop_last()).push(separator()) + parts.last()
    }
}

/// The text of the path made of `parts`, where the root component may only
/// stand first.
pub open spec fn path_text(parts: Seq<Seq<char>>) -> Seq<char> {
    if parts.len() > 0 && parts[0] == root_component() {
        root_component() + joined(parts.skip(1))
    } else {
        joined(parts)
    }
}

/// `base` extended by the components `rest`.  A `rest` that starts at the root
/// replaces `base`; otherwise the two are written with exactly one separator
/// between them, which an empty `base` or one that already ends in a
/// separator does not need.  The components of `rest` are written with one
/// separator between neighbours; `base` is taken as it is written.
pub open spec fn pushed(base: Seq<char>, rest: Seq<Seq<char>>) -> Seq<char> {
    if rest.len() > 0 && rest[0] == root_component() {
        path_text(rest)
    } else if base.len() > 0 && base.last() != separator() {
        base.push(separator()) + joined(rest)
    } else {
        base + joined(rest)
    }
}

/// Splits `text` at every separator.
pub fn split_pieces(text: &str) -> (parts: Vec<String>)
    ensures
        parts.deep_view() == pieces(text@),
{
    let total = text.unicode_len();
    let mut parts: Vec<String> = Vec::new();
    let mut start: usize = 0;
    let mut pos: usize = 0;
    let mut rest = text.chars();
    assert(text@.take(0) =~= Seq::<char>::empty());
    assert(parts.deep_view().push(text@.subrange(0, 0)) =~= pieces(text@.take(0)));
    assert(text@.skip(0) =~= text@);
    while pos < total
        invariant
            total == text@.len(),
            start <= pos <= total,
            rest.remaining() == text@.skip(pos as int),
            parts.deep_view().push(text@.subrange(start as int, pos as int)) == pieces(
                text@.take(pos as int),
            ),
        decreases total - pos,
    {
        let ghost before = text@.take(pos as int);
        let ghost after = text@.take(pos + 1);
        let next = rest.next();
        assert(after.drop_last() =~= before);
        assert(text@.skip(pos as int).drop_first() =~= text@.skip(pos + 1));
        match next {
            Some(c) => {
                assert(c == text@[pos as int]);
                assert(after.last() == c);
                if c == '/' {
                    let piece = text.substring_char(start, pos);
                    let ghost done = parts.deep_view();
                    parts.push(piece.to_owned());
                    start = pos + 1;
                    assert(parts.deep_view() =~= done.push(piece@));
                    assert(text@.subrange(start as int, pos + 1) =~= Seq::<char>::empty());
                } else {
                    let ghost done = parts.deep_view();
                    let ghost current = text@.subrange(start as int, pos as int);
                    assert(done.push(current).drop_last() =~= done);
                    assert(text@.subrange(start as int, pos + 1) =~= current.push(c));
                }
            },
            None => {
                assert(false);
            },
        }
        pos = pos + 1;
    }
    let piece = text.substring_char(start, total);
    let ghost done = parts.deep_view();
    parts.push(piece.to_owned());
    assert(parts.deep_view() =~= done.push(piece@));
    assert(text@.take(total as int) =~= text@);
    parts
}

/// Every path lies at or below itself.
pub proof fn lemma_starts_with_itself(path: Seq<char>)
    ensures
        starts_with(path, path),
{
    assert(components(path).subrange(0, components(path).len() as int) =~= components(path));
}

/// Lying at or below is transitive: what lies under `middle` lies under
/// everything that `middle` lies under.
pub proof fn lemma_starts_with_transitive(path: Seq<char>, middle: Seq<char>, base: Seq<char>)
    requires
        starts_with(path, middle),
        starts_with(middle, base),
    ensures
        starts_with(path, base),
{
    let inner = components(base);
    assert(inner =~= components(path).subrange(0, inner.len() as int)) by {
        assert forall|index: int| 0 <= index < inner.len() implies inner[index] == components(
            path,
        )[index] by {
            assert(inner[index] == components(middle).subrange(0, inner.len() as int)[index]);
            assert(components(middle)[index] == components(path).subrange(
                0,
                components(middle).len() as int,
            )[index]);
        }
    }
}

/// Two paths that lie below each other have the same components: they name
/// the same place.
pub proof fn lemma_starts_with_both_ways(first: Seq<char>, second: Seq<char>)
    requires
        starts_with(first, second),
        starts_with(second, first),
    ensures
        components(first) == components(second),
{
    assert(components(first).subrange(0, components(first).len() as int) =~= components(first));
}

/// No piece holds a separator, and the pieces joined give the text back:
/// splitting undoes joining.
pub proof fn lemma_joined_pieces(text: Seq<char>)
    ensures
        joined(pieces(text)) == text,
        forall|index: int, at: int|
            0 <= index < pieces(text).len() && 0 <= at < pieces(text)[index].len() ==> pieces(
                text,
            )[index][at] != separator(),
    decreases text.len(),
{
    lemma_pieces_nonempty(text);
    if text.len() == 0 {
        assert(joined(pieces(text)) =~= text);
    } else {
        let shorter = text.drop_last();
        let before = pieces(shorter);
        lemma_joined_pieces(shorter);
        lemma_pieces_nonempty(shorter);
        if text.last() == separator() {
            assert(pieces(text).drop_last() =~= before);
            assert(joined(pieces(text)) =~= joined(before).push(separator()));
            assert(shorter.push(text.last()) =~= text);
        } else {
            let grown = before.last().push(text.last());
            assert(pieces(text) =~= before.drop_last().push(grown));
            if before.len() == 1 {
                assert(joined(before) == before[0]);
                assert(joined(pieces(text)) =~= shorter.push(text.last()));
            } else {
                assert(pieces(text).drop_last() =~= before.drop_last());
                assert(joined(before) == joined(before.drop_last()).push(separator())
                    + before.last());
                assert(joined(pieces(text)) =~= joined(before).push(text.last()));
            }
            assert(shorter.push(text.last()) =~= text);
            assert forall|index: int, at: int|
                0 <= index < pieces(text).len() && 0 <= at < pieces(text)[index].len()
                implies pieces(text)[index][at] != separator() by {
                if index < before.len() - 1 {
                    assert(pieces(text)[index] == before[index]);
                } else if at < before.last().len() {
                    assert(pieces(text)[index][at] == before[index][at]);
                }
            }
        }
    }
}

/// Whether `piece` holds no separator.
pub open spec fn is_plain(piece: Seq<char>) -> bool {
    forall|at: int| 0 <= at < piece.len() ==> piece[at] != separator()
}

/// Whether each of `parts` is a name without a separator in it.
pub open spec fn are_names(parts: Seq<Seq<char>>) -> bool {
    forall|index: int|
        0 <= index < parts.len() ==> is_plain(#[trigger] parts[index]) && is_name(parts[index])
}

/// A text without a separator is one piece.
proof fn lemma_pieces_of_plain(piece: Seq<char>)
    requires
        is_plain(piece),
    ensures
        pieces(piece) == seq![piece],
    decreases piece.len(),
{
    if piece.len() == 0 {
        assert(piece =~= Seq::<char>::empty());
        assert(pieces(piece) =~= seq![piece]);
    } else {
        let shorter = piece.drop_last();
        assert forall|at: int| 0 <= at < shorter.len() implies shorter[at] != separator() by {
            assert(shorter[at] == piece[at]);
        }
        lemma_pieces_of_plain(shorter);
        assert(piece[piece.len() - 1] != separator());
        assert(shorter.push(piece.last()) =~= piece);
        assert(seq![shorter].drop_last().push(seq![shorter].last().push(piece.last())) =~= seq![
            piece,
        ]);
    }
}

/// What follows a separator without holding one is a piece of its own.
proof fn lemma_pieces_after_separator(before: Seq<char>, piece: Seq<char>)
    requires
        is_plain(piece),
    ensures
        pieces(before.push(separator()) + piece) == pieces(before).push(piece),
    decreases piece.len(),
{
    let whole = before.push(separator()) + piece;
    if piece.len() == 0 {
        assert(whole =~= before.push(separator()));
        assert(whole.drop_last() =~= before);
        assert(whole.last() == separator());
        assert(piece =~= Seq::<char>::empty());
    } else {
        let shorter = piece.drop_last();
        assert forall|at: int| 0 <= at < shorter.len() implies shorter[at] != separator() by {
            assert(shorter[at] == piece[at]);
        }
        lemma_pieces_after_separator(before, shorter);
        assert(whole.drop_last() =~= before.push(separator()) + shorter);
        assert(whole.last() == piece[piece.len() - 1]);
        assert(whole.last() != separator());
        assert(shorter.push(piece.last()) =~= piece);
        let held = pieces(before).push(shorter);
        assert(held.drop_last() =~= pieces(before));
        assert(held.last() == shorter);
        assert(pieces(whole) == held.drop_last().push(held.last().push(whole.last())));
    }
}

/// Joining undoes splitting: the pieces of parts joined are those parts,
/// where no part holds a separator.
pub proof fn lemma_pieces_of_joined(parts: Seq<Seq<char>>)
    requires
        parts.len() >= 1,
        forall|index: int| 0 <= index < parts.len() ==> is_plain(#[trigger] parts[index]),
    ensures
        pieces(joined(parts)) == parts,
    decreases parts.len(),
{
    if parts.len() == 1 {
        lemma_pieces_of_plain(parts[0]);
        assert(seq![parts[0]] =~= parts);
    } else {
        let before = parts.drop_last();
        assert forall|index: int| 0 <= index < before.len() implies is_plain(
            #[trigger] before[index],
        ) by {
            assert(before[index] == parts[index]);
        }
        lemma_pieces_of_joined(before);
        lemma_pieces_after_separator(joined(before), parts.last());
        assert(before.push(parts.last()) =~= parts);
    }
}

/// Names are kept: filtering the names out of names changes nothing, and an
/// empty piece behind them is dropped.
proof fn lemma_names_are_kept(parts: Seq<Seq<char>>)
    requires
        are_names(parts),
    ensures
        parts.filter(name_filter()) == parts,
        parts.push(Seq::empty()).filter(name_filter()) == parts,
    decreases parts.len(),
{
    reveal(Seq::filter);
    if parts.len() > 0 {
        let before = parts.drop_last();
        assert forall|index: int| 0 <= index < before.len() implies is_plain(
            #[trigger] before[index],
        ) && is_name(before[index]) by {
            assert(before[index] == parts[index]);
        }
        lemma_names_are_kept(before);
        assert(before.push(parts.last()) =~= parts);
    }
    assert(parts.filter(name_filter()) =~= parts);
    parts.lemma_filter_push(Seq::empty(), name_filter());
}

/// The components of names joined are those names, with or without a
/// separator behind the last of them.
pub proof fn lemma_components_of_joined(parts: Seq<Seq<char>>)
    requires
        parts.len() >= 1,
        are_names(parts),
    ensures
        components(joined(parts)) == parts,
        components(joined(parts).push(separator())) == parts,
{
    let text = joined(parts);
    lemma_pieces_of_joined(parts);
    lemma_names_are_kept(parts);
    lemma_joined_pieces(text);
    assert(is_plain(parts[0]) && is_name(parts[0]));
    assert(pieces(text)[0] == parts[0]);
    lemma_first_piece(text);
    assert(text[0] == parts[0][0]);
    assert(leading(text) =~= Seq::<Seq<char>>::empty());
    assert(components(text) =~= parts);
    let closed = text.push(separator());
    assert(closed.drop_last() =~= text);
    assert(pieces(closed) == parts.push(Seq::empty()));
    assert(closed[0] == text[0]);
    assert(leading(closed) =~= Seq::<Seq<char>>::empty());
    assert(components(closed) =~= parts);
}

/// The first piece of a text is what stands before its first separator.
proof fn lemma_first_piece(text: Seq<char>)
    ensures
        pieces(text).len() >= 1,
        pieces(text)[0].len() <= text.len(),
        pieces(text)[0] == text.take(pieces(text)[0].len() as int),
        is_plain(pieces(text)[0]),
        pieces(text).len() == 1 <==> pieces(text)[0].len() == text.len(),
        pieces(text)[0].len() < text.len() ==> text[pieces(text)[0].len() as int] == separator(),
    decreases text.len(),
{
    if text.len() == 0 {
        assert(pieces(text)[0] =~= text.take(0));
    } else {
        let shorter = text.drop_last();
        let before = pieces(shorter);
        let reach = before[0].len() as int;
        lemma_first_piece(shorter);
        assert(shorter.take(reach) =~= text.take(reach));
        if text.last() == separator() {
            assert(pieces(text)[0] == before[0]);
        } else if before.len() == 1 {
            assert(pieces(text)[0] == before[0].push(text.last()));
            assert(before[0].push(text.last()) =~= text.take(reach + 1));
        } else {
            assert(pieces(text)[0] == before[0]);
            assert(text[reach] == shorter[reach]);
        }
    }
}

/// Each of the names of a text is a name, and holds no separator.
pub proof fn lemma_names_are_names(text: Seq<char>)
    ensures
        are_names(names(text)),
{
    lemma_joined_pieces(text);
    assert forall|index: int| 0 <= index < names(text).len() implies is_plain(
        #[trigger] names(text)[index],
    ) && is_name(names(text)[index]) by {
        let name = names(text)[index];
        pieces(text).lemma_filter_pred(name_filter(), index);
        assert(names(text).contains(name));
        pieces(text).lemma_filter_contains_rev(name_filter(), name);
        let place = choose|place: int| 0 <= place < pieces(text).len() && pieces(text)[place] == name;
        assert(pieces(text)[place] == name);
    }
}

/// Joining two lists one after the other is joining the two joined texts.
pub proof fn lemma_joined_concat(first: Seq<Seq<char>>, second: Seq<Seq<char>>)
    requires
        first.len() >= 1,
        second.len() >= 1,
    ensures
        joined(first + second) == joined(first).push(separator()) + joined(second),
    decreases second.len(),
{
    let both = first + second;
    assert(both.drop_last() =~= first + second.drop_last());
    assert(both.last() == second.last());
    if second.len() == 1 {
        assert(first + second.drop_last() =~= first);
        assert(joined(both) =~= joined(first).push(separator()) + joined(second));
    } else {
        lemma_joined_concat(first, second.drop_last());
        assert(joined(both) =~= joined(first).push(separator()) + joined(second));
    }
}

/// Every text has at least one piece.
pub proof fn lemma_pieces_nonempty(text: Seq<char>)
    ensures
        pieces(text).len() >= 1,
    decreases text.len(),
{
    if text.len() > 0 {
        lemma_pieces_nonempty(text.drop_last());
    }
}

/// Whether `piece` is kept as a component.
pub fn is_name_text(piece: &str) -> (kept: bool)
    ensures
        kept == is_name(piece@),
{
    let length = piece.unicode_len();
    if length == 0 {
        false
    } else if length == 1 {
        let only = piece.get_char(0);
        assert(only != '.' ==> piece@ != current_component());
        assert(only == '.' ==> piece@ =~= current_component());
        only != '.'
    } else {
        true
    }
}

/// Whether `piece` is the parent component `..`.
pub fn is_parent_text(piece: &str) -> (parent: bool)
    ensures
        parent == (piece@ == parent_component()),
{
    let length = piece.unicode_len();
    if length == 2 {
        let first = piece.get_char(0);
        let second = piece.get_char(1);
        assert(first == '.' && second == '.' ==> piece@ =~= parent_component());
        first == '.' && second == '.'
    } else {
        false
    }
}

/// Whether `text` starts at the root.
pub fn is_absolute_text(text: &str) -> (absolute: bool)
    ensures
        absolute == is_absolute(text@),
{
    let length = text.unicode_len();
    length > 0 && text.get_char(0) == '/'
}

/// The components of the path `text`.
pub fn path_components(text: &str) -> (parts: Vec<String>)
    ensures
        parts.deep_view() == components(text@),
{
    let raw = split_pieces(text);
    proof {
        lemma_pieces_nonempty(text@);
    }
    let mut parts: Vec<String> = Vec::new();
    if is_absolute_text(text) {
        let root = "/";
        proof {
            reveal_strlit("/");
            assert(root@ =~= root_component());
        }
        parts.push(root.to_owned());
        assert(parts.deep_view() =~= leading(text@));
    } else {
        let first = raw[0].as_str();
        let length = first.unicode_len();
        if length == 1 && first.get_char(0) == '.' {
            assert(first@ =~= current_component());
            parts.push(first.to_owned());
            assert(parts.deep_view() =~= leading(text@));
        } else {
            assert(parts.deep_view() =~= leading(text@));
        }
    }
    let mut index: usize = 0;
    assert(raw.deep_view().take(0) =~= Seq::<Seq<char>>::empty());
    assert(raw.deep_view().take(0).filter(name_filter()) =~= Seq::<Seq<char>>::empty()) by {
        reveal(Seq::filter);
    }
    while index < raw.len()
        invariant
            index <= raw.len(),
            raw.deep_view() == pieces(text@),
            parts.deep_view() == leading(text@) + raw.deep_view().take(index as int).filter(
                name_filter(),
            ),
        decreases raw.len() - index,
    {
        let piece = raw[index].as_str();
        let ghost seen = raw.deep_view().take(index as int);
        let ghost done = parts.deep_view();
        proof {
            raw.deep_view().lemma_take_succ_push(index as int);
            seen.lemma_filter_push(piece@, name_filter());
        }
        if is_name_text(piece) {
            parts.push(piece.to_owned());
            assert(parts.deep_view() =~= done.push(piece@));
        }
        index = index + 1;
    }
    assert(raw.deep_view().take(raw.len() as int) =~= raw.deep_view());
    parts
}

/// Whether the components `base` are the first components of `path`.
pub fn components_start_with(path: &Vec<String>, base: &Vec<String>) -> (prefixed: bool)
    ensures
        prefixed == base.deep_view().is_prefix_of(path.deep_view()),
{
    if base.len() > path.len() {
        return false;
    }
    let mut index: usize = 0;
    while index < base.len()
        invariant
            index <= base.len() <= path.len(),
            forall|k: int| 0 <= k < index ==> base.deep_view()[k] == path.deep_view()[k],
        decreases base.len() - index,
    {
        if base[index] != path[index] {
            assert(base.deep_view()[index as int] != path.deep_view().subrange(
                0,
                base.len() as int,
            )[index as int]);
            return false;
        }
        index = index + 1;
    }
    assert(base.deep_view() =~= path.deep_view().subrange(0, base.len() as int));
    true
}

/// The final component of `text`, where that is an ordinary name.
pub fn path_file_name(text: &str) -> (name: Option<String>)
    ensures
        match name {
            Some(n) => file_name(text@) == Some(n@),
            None => file_name(text@) is None,
        },
{
    let raw = split_pieces(text);
    let mut last: Option<String> = None;
    let mut index: usize = 0;
    assert(raw.deep_view().take(0) =~= Seq::<Seq<char>>::empty());
    assert(raw.deep_view().take(0).filter(name_filter()) =~= Seq::<Seq<char>>::empty()) by {
        reveal(Seq::filter);
    }
    while index < raw.len()
        invariant
            index <= raw.len(),
            raw.deep_view() == pieces(text@),
            match last {
                Some(n) => {
                    let kept = raw.deep_view().take(index as int).filter(name_filter());
                    kept.len() > 0 && kept.last() == n@
                },
                None => raw.deep_view().take(index as int).filter(name_filter()).len() == 0,
            },
        decreases raw.len() - index,
    {
        let piece = raw[index].as_str();
        proof {
            raw.deep_view().lemma_take_succ_push(index as int);
            raw.deep_view().take(index as int).lemma_filter_push(piece@, name_filter());
        }
        if is_name_text(piece) {
            last = Some(piece.to_owned());
        }
        index = index + 1;
    }
    assert(raw.deep_view().take(raw.len() as int) =~= raw.deep_view());
    match last {
        Some(n) => {
            if is_parent_text(n.as_str()) {
                None
            } else {
                Some(n)
            }
        },
        None => None,
    }
}

/// Whether `piece` is the root component.
pub fn is_root_text(piece: &str) -> (root: bool)
    ensures
        root == (piece@ == root_component()),
{
    let length = piece.unicode_len();
    if length == 1 {
        let only = piece.get_char(0);
        assert(only == '/' ==> piece@ =~= root_component());
        only == '/'
    } else {
        false
    }
}

/// Appends to `out` the components of `parts` from index `from` on, with a
/// separator between neighbours.
pub fn append_joined(out: &mut String, parts: &Vec<String>, from: usize)
    requires
        from <= parts.len(),
    ensures
        final(out)@ == old(out)@ + joined(parts.deep_view().skip(from as int)),
{
    let mut index: usize = from;
    assert(parts.deep_view().subrange(from as int, from as int) =~= Seq::<Seq<char>>::empty());
    assert(out@ =~= old(out)@ + Seq::<char>::empty());
    while index < parts.len()
        invariant
            from <= index <= parts.len(),
            out@ == old(out)@ + joined(parts.deep_view().subrange(from as int, index as int)),
        decreases parts.len() - index,
    {
        let ghost before = parts.deep_view().subrange(from as int, index as int);
        let ghost after = parts.deep_view().subrange(from as int, index + 1);
        let ghost held = out@;
        assert(after.drop_last() =~= before);
        assert(after.last() == parts[index as int]@);
        if index > from {
            let between = "/";
            proof {
                reveal_strlit("/");
                assert(between@ =~= seq![separator()]);
            }
            out.append(between);
            assert(out@ =~= held.push(separator()));
        }
        out.append(parts[index].as_str());
        assert(out@ =~= old(out)@ + joined(after));
        index = index + 1;
    }
    assert(parts.deep_view().subrange(from as int, parts.len() as int) =~= parts.deep_view().skip(
        from as int,
    ));
}

/// `base` extended by the components of `parts` from index `from` on.
pub fn push_components(base: &str, parts: &Vec<String>, from: usize) -> (text: String)
    requires
        from <= parts.len(),
    ensures
        text@ == pushed(base@, parts.deep_view().skip(from as int)),
{
    let ghost rest = parts.deep_view().skip(from as int);
    if from < parts.len() && is_root_text(parts[from].as_str()) {
        let mut text = parts[from].clone();
        assert(rest[0] == root_component());
        assert(rest.skip(1) =~= parts.deep_view().skip(from + 1));
        append_joined(&mut text, parts, from + 1);
        text
    } else {
        assert(rest.len() > 0 ==> rest[0] == parts[from as int]@);
        let mut text = base.to_owned();
        let length = base.unicode_len();
        if length > 0 && base.get_char(length - 1) != '/' {
            let between = "/";
            proof {
                reveal_strlit("/");
                assert(between@ =~= seq![separator()]);
            }
            text.append(between);
            assert(text@ =~= base@.push(separator()));
        }
        append_joined(&mut text, parts, from);
        text
    }
}

} // verus!
