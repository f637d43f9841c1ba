//! The text of a path: how it splits into components, how two texts join, and
//! where the text of the parent ends.
//!
//! A path text is a byte string in which `/` separates components. Empty
//! pieces and `.` pieces carry no meaning, except that a text may begin at the
//! root (`/`) or at the current directory (`.`).

use vstd::prelude::*;

use crate::order;
use crate::order::copy_bytes;

verus! {

/// The byte that separates components.
pub const SEPARATOR: u8 = 0x2f;

/// The byte that names the current directory.
pub const DOT: u8 = 0x2e;

/// The pieces of a text between its separators.
pub open spec fn split(text: Seq<u8>) -> Seq<Seq<u8>>
    decreases text.len(),
{
    if text.len() == 0 {
        seq![Seq::<u8>::empty()]
    } else {
        let pieces = split(text.drop_last());
        if text.last() == SEPARATOR {
            pieces.push(Seq::<u8>::empty())
        } else {
            pieces.drop_last().push(pieces.last().push(text.last()))
        }
    }
}

/// Whether a piece is a component: it is not empty and not `.`.
pub open spec fn is_name(piece: Seq<u8>) -> bool {
    &&& piece.len() > 0
    &&& piece != seq![DOT]
}

/// The pieces that are components.
pub open spec fn names(pieces: Seq<Seq<u8>>) -> Seq<Seq<u8>> {
    pieces.filter(|piece: Seq<u8>| is_name(piece))
}

/// The components of a text after the place where it begins.
pub open spec fn body(text: Seq<u8>) -> Seq<Seq<u8>> {
    names(split(text))
}

/// Whether a text begins at the root.
pub open spec fn is_absolute(text: Seq<u8>) -> bool {
    text.len() > 0 && text[0] == SEPARATOR
}

/// Whether a text begins at the current directory by name.
pub open spec fn is_dotted(text: Seq<u8>) -> bool {
    &&& text.len() > 0
    &&& text[0] == DOT
    &&& text.len() == 1 || text[1] == SEPARATOR
}

/// The place where a text begins, as a component.
pub open spec fn head(text: Seq<u8>) -> Seq<Seq<u8>> {
    if is_absolute(text) {
        seq![seq![SEPARATOR]]
    } else if is_dotted(text) {
        seq![seq![DOT]]
    } else {
        Seq::empty()
    }
}

/// The components of a text.
pub open spec fn components(text: Seq<u8>) -> Seq<Seq<u8>> {
    head(text) + body(text)
}

/// The text of `path` taken from the directory `base`: `path` itself where it
/// is absolute, otherwise `base`, one separator and `path`.
pub open spec fn joined(base: Seq<u8>, path: Seq<u8>) -> Seq<u8> {
    if is_absolute(path) {
        path
    } else if base.len() > 0 && base.last() != SEPARATOR {
        base.push(SEPARATOR) + path
    } else {
        base + path
    }
}

/// The components in a list, one separator between each two.
pub open spec fn slashed(parts: Seq<Seq<u8>>) -> Seq<u8>
    decreases parts.len(),
{
    if parts.len() == 0 {
        Seq::empty()
    } else if parts.len() == 1 {
        parts[0]
    } else {
        slashed(parts.drop_last()).push(SEPARATOR) + parts.last()
    }
}

/// Whether a byte string can be a component of a text after its beginning: it is
/// not empty, not `.`, and holds no separator.
pub open spec fn is_clean(part: Seq<u8>) -> bool {
    &&& is_name(part)
    &&& forall|i: int| 0 <= i < part.len() ==> part[i] != SEPARATOR
}

/// `end` is the length of the shortest start of `text` that has all components
/// of `text` but the last.
pub open spec fn is_parent_end(text: Seq<u8>, end: int) -> bool {
    &&& 0 <= end <= text.len()
    &&& components(text.take(end)) == components(text).drop_last()
    &&& is_shortest(text, end)
}

/// No shorter start of `text` has the components of its first `end` bytes.
pub open spec fn is_shortest(text: Seq<u8>, end: int) -> bool {
    forall|m: int|
        0 <= m < end ==> components(#[trigger] text.take(m)) != components(text.take(end))
}

/// The text of the parent of an absolute path: the shortest start of the text
/// that has all its components but the last. The root has no parent.
pub open spec fn parent_text(text: Seq<u8>) -> Option<Seq<u8>> {
    if components(text).len() <= 1 {
        None
    } else {
        Some(text.take(choose|end: int| is_parent_end(text, end)))
    }
}

/// A text has at least one piece.
pub proof fn lemma_split_nonempty(text: Seq<u8>)
    ensures
        split(text).len() >= 1,
    decreases text.len(),
{
    if text.len() > 0 {
        lemma_split_nonempty(text.drop_last());
    }
}

/// What one more byte does to the pieces of a text.
proof fn lemma_split_push(text: Seq<u8>, byte: u8)
    ensures
        split(text).len() >= 1,
        byte == SEPARATOR ==> split(text.push(byte)) == split(text).push(Seq::<u8>::empty()),
        byte != SEPARATOR ==> split(text.push(byte)) == split(text).drop_last().push(
            split(text).last().push(byte),
        ),
{
    lemma_split_nonempty(text);
    assert(text.push(byte).drop_last() == text);
}

/// What one more piece does to the components.
proof fn lemma_names_push(pieces: Seq<Seq<u8>>, piece: Seq<u8>)
    ensures
        is_name(piece) ==> names(pieces.push(piece)) == names(pieces).push(piece),
        !is_name(piece) ==> names(pieces.push(piece)) == names(pieces),
{
    let pred = |p: Seq<u8>| is_name(p);
    reveal(Seq::filter);
    assert(pieces.push(piece).drop_last() == pieces);
}

/// The components of two lists of pieces in a row.
proof fn lemma_names_add(a: Seq<Seq<u8>>, b: Seq<Seq<u8>>)
    ensures
        names(a + b) == names(a) + names(b),
{
    Seq::filter_distributes_over_add(a, b, |p: Seq<u8>| is_name(p));
}

/// A text before its last piece, and that piece.
proof fn lemma_body_parts(text: Seq<u8>)
    ensures
        split(text).len() >= 1,
        is_name(split(text).last()) ==> body(text) == names(split(text).drop_last()).push(
            split(text).last(),
        ),
        !is_name(split(text).last()) ==> body(text) == names(split(text).drop_last()),
{
    lemma_split_nonempty(text);
    let pieces = split(text);
    assert(pieces.drop_last().push(pieces.last()) == pieces);
    lemma_names_push(pieces.drop_last(), pieces.last());
}

/// The empty text has one piece, which is empty, and no component.
proof fn lemma_empty_text()
    ensures
        split(Seq::empty()) == seq![Seq::<u8>::empty()],
        split(Seq::empty()).drop_last() == Seq::<Seq<u8>>::empty(),
        names(Seq::empty()) == Seq::<Seq<u8>>::empty(),
        components(Seq::empty()).len() == 0,
{
    lemma_body_parts(Seq::empty());
    assert(split(Seq::empty()).drop_last() =~= Seq::<Seq<u8>>::empty());
    assert(names(Seq::empty()) == Seq::<Seq<u8>>::empty()) by {
        reveal(Seq::filter);
    }
}

/// A separator between two texts separates their pieces.
proof fn lemma_split_separated(a: Seq<u8>, b: Seq<u8>)
    ensures
        split(a.push(SEPARATOR) + b) == split(a) + split(b),
    decreases b.len(),
{
    if b.len() == 0 {
        assert(a.push(SEPARATOR) + b == a.push(SEPARATOR));
        lemma_split_push(a, SEPARATOR);
        assert(split(b) == seq![Seq::<u8>::empty()]);
        assert(split(a).push(Seq::<u8>::empty()) == split(a) + seq![Seq::<u8>::empty()]);
    } else {
        let c = b.drop_last();
        lemma_split_separated(a, c);
        assert(a.push(SEPARATOR) + b == (a.push(SEPARATOR) + c).push(b.last()));
        assert(c.push(b.last()) == b);
        lemma_split_push(a.push(SEPARATOR) + c, b.last());
        lemma_split_push(c, b.last());
        if b.last() == SEPARATOR {
            assert((split(a) + split(c)).push(Seq::<u8>::empty()) == split(a) + split(c).push(
                Seq::<u8>::empty(),
            ));
        } else {
            assert((split(a) + split(c)).last() == split(c).last());
            assert((split(a) + split(c)).drop_last().push(split(c).last().push(b.last()))
                == split(a) + split(c).drop_last().push(split(c).last().push(b.last())));
        }
    }
}

proof fn lemma_split_single(text: Seq<u8>)
    requires
        forall|i: int| 0 <= i < text.len() ==> text[i] != SEPARATOR,
    ensures
        split(text) == seq![text],
    decreases text.len(),
{
    if text.len() == 0 {
        assert(text == Seq::<u8>::empty());
    } else {
        lemma_split_single(text.drop_last());
        assert(text.drop_last().push(text.last()) == text);
    }
}

/// A component is the one component of its own text.
pub proof fn name_is_body(text: Seq<u8>)
    requires
        is_name(text),
        forall|i: int| 0 <= i < text.len() ==> text[i] != SEPARATOR,
    ensures
        !is_absolute(text),
        body(text) == seq![text],
{
    lemma_split_single(text);
    lemma_body_parts(text);
    assert(split(text).drop_last() == Seq::<Seq<u8>>::empty());
    lemma_empty_text();
}

proof fn lemma_pieces_hold_no_separator(text: Seq<u8>)
    ensures
        forall|i: int, j: int|
            0 <= i < split(text).len() && 0 <= j < split(text)[i].len() ==> #[trigger] split(
                text,
            )[i][j] != SEPARATOR,
    decreases text.len(),
{
    if text.len() > 0 {
        let t = text.drop_last();
        lemma_pieces_hold_no_separator(t);
        lemma_split_nonempty(t);
        let pieces = split(t);
        let after = split(text);
        assert forall|i: int, j: int|
            0 <= i < after.len() && 0 <= j < after[i].len() implies #[trigger] after[i][j]
            != SEPARATOR by {
            if i < pieces.len() - 1 || text.last() == SEPARATOR && i < pieces.len() {
                assert(after[i] == pieces[i]);
                assert(pieces[i][j] != SEPARATOR);
            } else if text.last() != SEPARATOR && j < pieces[i].len() {
                assert(after[i] == pieces.last().push(text.last()));
                assert(pieces[i][j] != SEPARATOR);
            }
        }
    }
}

/// Each component of a text after its beginning is clean.
pub proof fn body_is_clean(text: Seq<u8>)
    ensures
        forall|i: int| 0 <= i < body(text).len() ==> is_clean(#[trigger] body(text)[i]),
{
    let pred = |piece: Seq<u8>| is_name(piece);
    let pieces = split(text);
    lemma_pieces_hold_no_separator(text);
    assert forall|i: int| 0 <= i < body(text).len() implies is_clean(
        #[trigger] body(text)[i],
    ) by {
        let part = pieces.filter(pred)[i];
        pieces.lemma_filter_pred(pred, i);
        assert(pieces.filter(pred).contains(part));
        pieces.lemma_filter_contains_rev(pred, part);
        let k = choose|k: int| 0 <= k < pieces.len() && pieces[k] == part;
        assert forall|j: int| 0 <= j < part.len() implies part[j] != SEPARATOR by {
            assert(pieces[k][j] != SEPARATOR);
        }
    }
}

/// Clean components with separators between them are the components of the
/// text, which begins neither at the root nor at the current directory by name.
pub proof fn slashed_components(parts: Seq<Seq<u8>>)
    requires
        forall|i: int| 0 <= i < parts.len() ==> is_clean(#[trigger] parts[i]),
    ensures
        !is_absolute(slashed(parts)),
        !is_dotted(slashed(parts)),
        components(slashed(parts)) == parts,
    decreases parts.len(),
{
    let text = slashed(parts);
    if parts.len() == 0 {
        lemma_empty_text();
        assert(components(text) =~= parts);
    } else if parts.len() == 1 {
        name_is_body(parts[0]);
        if is_dotted(text) {
            assert(text.len() > 1) by {
                if text.len() == 1 {
                    assert(text == seq![DOT]);
                }
            }
            assert(text[1] != SEPARATOR);
        }
        assert(components(text) =~= parts);
    } else {
        let rest = parts.drop_last();
        let last = parts.last();
        let start = slashed(rest);
        assert forall|i: int| 0 <= i < rest.len() implies is_clean(#[trigger] rest[i]) by {
            assert(rest[i] == parts[i]);
        }
        slashed_components(rest);
        assert(is_clean(parts[parts.len() - 1]));
        name_is_body(last);
        if start.len() == 0 {
            lemma_empty_text();
            assert(start == Seq::<u8>::empty());
        }
        assert(text[0] == start[0]);
        if is_dotted(text) && start.len() > 1 {
            assert(text[1] == start[1]);
        }
        lemma_split_separated(start, last);
        lemma_names_add(split(start), split(last));
        assert(components(text) =~= parts);
    }
}

/// A single dot has no component after its beginning, nor has the empty text.
pub proof fn filler_has_no_body(piece: Seq<u8>)
    requires
        piece == Seq::<u8>::empty() || piece == seq![DOT],
    ensures
        body(piece) == Seq::<Seq<u8>>::empty(),
{
    lemma_split_single(piece);
    lemma_body_parts(piece);
    lemma_empty_text();
    assert(split(piece).drop_last() == Seq::<Seq<u8>>::empty());
}

/// The components of two texts with a separator between them, after the
/// beginnings.
pub proof fn separated_body(a: Seq<u8>, b: Seq<u8>)
    ensures
        body(a.push(SEPARATOR) + b) == body(a) + body(b),
{
    lemma_split_separated(a, b);
    lemma_names_add(split(a), split(b));
}

/// The components of a relative path, taken from an absolute directory, follow
/// those of the directory.
pub proof fn joined_components(base: Seq<u8>, path: Seq<u8>)
    requires
        is_absolute(base),
        !is_absolute(path),
    ensures
        is_absolute(joined(base, path)),
        components(joined(base, path)) == components(base) + body(path),
{
    if base.last() != SEPARATOR {
        lemma_split_separated(base, path);
        lemma_names_add(split(base), split(path));
    } else {
        let a = base.drop_last();
        assert(a.push(SEPARATOR) == base);
        lemma_split_separated(a, path);
        lemma_names_add(split(a), split(path));
        lemma_split_push(a, SEPARATOR);
        lemma_names_push(split(a), Seq::<u8>::empty());
    }
    assert(head(base) + (body(base) + body(path)) == components(base) + body(path));
}

/// The number of bytes in a list of components.
spec fn weight(parts: Seq<Seq<u8>>) -> nat
    decreases parts.len(),
{
    if parts.len() == 0 {
        0
    } else {
        weight(parts.drop_last()) + parts.last().len()
    }
}

proof fn lemma_weight_push(parts: Seq<Seq<u8>>, part: Seq<u8>)
    ensures
        weight(parts.push(part)) == weight(parts) + part.len(),
{
    assert(parts.push(part).drop_last() == parts);
}

/// One more byte leaves the components as they are or adds to their bytes.
proof fn lemma_weight_step(text: Seq<u8>, byte: u8)
    ensures
        weight(body(text)) <= weight(body(text.push(byte))),
        byte != SEPARATOR && is_name(split(text.push(byte)).last()) ==> weight(body(text)) < weight(
            body(text.push(byte)),
        ),
{
    lemma_split_push(text, byte);
    lemma_body_parts(text);
    lemma_body_parts(text.push(byte));
    let before = split(text).drop_last();
    let piece = split(text).last();
    if byte == SEPARATOR {
        assert(split(text.push(byte)).drop_last() == split(text));
        assert(split(text.push(byte)).last() == Seq::<u8>::empty());
    } else {
        assert(split(text.push(byte)).drop_last() == before);
        assert(split(text.push(byte)).last() == piece.push(byte));
        lemma_weight_push(names(before), piece);
        lemma_weight_push(names(before), piece.push(byte));
        if is_name(piece) {
            assert(piece.push(byte).len() >= 2);
            assert(is_name(piece.push(byte))) by {
                assert(piece.push(byte).len() != seq![DOT].len());
            }
        }
    }
}

proof fn lemma_weight_monotone(text: Seq<u8>, m: int, n: int)
    requires
        0 <= m <= n <= text.len(),
    ensures
        weight(body(text.take(m))) <= weight(body(text.take(n))),
    decreases n - m,
{
    if m < n {
        lemma_weight_monotone(text, m, n - 1);
        lemma_weight_step(text.take(n - 1), text[n - 1]);
        assert(text.take(n - 1).push(text[n - 1]) == text.take(n));
    }
}

/// Where a component ends, no shorter start of the text has the components up
/// to there.
proof fn lemma_shortest_at_name(text: Seq<u8>, n: int)
    requires
        is_absolute(text),
        1 < n <= text.len(),
        text[n - 1] != SEPARATOR,
        is_name(split(text.take(n)).last()),
    ensures
        is_shortest(text, n),
{
    assert forall|m: int| 0 <= m < n implies components(#[trigger] text.take(m)) != components(
        text.take(n),
    ) by {
        assert(is_absolute(text.take(n)));
        if m == 0 {
            assert(components(text.take(0)).len() == 0) by {
                assert(text.take(0) == Seq::<u8>::empty());
                lemma_empty_text();
            }
            assert(components(text.take(n))[0] == seq![SEPARATOR]);
        } else {
            assert(is_absolute(text.take(m)));
            lemma_weight_monotone(text, m, n - 1);
            lemma_weight_step(text.take(n - 1), text[n - 1]);
            assert(text.take(n - 1).push(text[n - 1]) == text.take(n));
            assert(components(text.take(m)).skip(1) == body(text.take(m)));
            assert(components(text.take(n)).skip(1) == body(text.take(n)));
        }
    }
}

/// The parent's text is determined by the text.
proof fn lemma_parent_end_unique(text: Seq<u8>, a: int, b: int)
    requires
        is_parent_end(text, a),
        is_parent_end(text, b),
    ensures
        a == b,
{
    if a < b {
        assert(components(text.take(a)) != components(text.take(b)));
    }
    if b < a {
        assert(components(text.take(b)) != components(text.take(a)));
    }
}

/// A text with a component beyond its beginning has a shorter start with all
/// components but the last.
proof fn lemma_some_parent_end(text: Seq<u8>) -> (end: int)
    requires
        is_absolute(text),
        body(text).len() > 0,
    ensures
        1 <= end < text.len(),
        components(text.take(end)) == components(text).drop_last(),
    decreases text.len(),
{
    let t = text.drop_last();
    let byte = text.last();
    assert(t.push(byte) == text);
    assert(text.take(t.len() as int) == t);
    lemma_split_push(t, byte);
    lemma_body_parts(t);
    lemma_body_parts(text);
    if t.len() == 0 {
        lemma_empty_text();
        assert(t == Seq::<u8>::empty());
        assert(split(text).drop_last() == split(t));
        assert(false);
    }
    assert(is_absolute(t));
    if byte == SEPARATOR {
        assert(split(text).drop_last() == split(t));
        assert(body(text) == body(t));
        let end = lemma_some_parent_end(t);
        assert(t.take(end) == text.take(end));
        end
    } else {
        assert(split(text).drop_last() == split(t).drop_last());
        if !is_name(split(t).last()) && is_name(split(text).last()) {
            assert((head(t) + body(t)) == (head(text) + body(text)).drop_last());
            t.len() as int
        } else {
            let end = lemma_some_parent_end(t);
            assert(t.take(end) == text.take(end));
            if is_name(split(t).last()) {
                assert(split(text).last().len() >= 2);
                assert(is_name(split(text).last()));
                assert(components(t).drop_last() == head(t) + names(split(t).drop_last()));
                assert(components(text).drop_last() == head(t) + names(split(t).drop_last()));
            }
            end
        }
    }
}

proof fn lemma_shortest_start(text: Seq<u8>, end: int) -> (least: int)
    requires
        0 <= end <= text.len(),
    ensures
        0 <= least <= end,
        components(text.take(least)) == components(text.take(end)),
        is_shortest(text, least),
    decreases end,
{
    if is_shortest(text, end) {
        end
    } else {
        let m = choose|m: int|
            0 <= m < end && components(#[trigger] text.take(m)) == components(text.take(end));
        lemma_shortest_start(text, m)
    }
}

/// The parent of an absolute path is absolute, its text is a shorter start of
/// the path's text, and its components are those of the path but the last.
/// Every absolute path but the root has a parent.
pub proof fn parent_properties(text: Seq<u8>)
    requires
        is_absolute(text),
    ensures
        components(text).len() >= 1,
        components(text)[0] == seq![SEPARATOR],
        parent_text(text) is None <==> components(text).len() == 1,
        parent_text(text) matches Some(parent) ==> {
            &&& is_absolute(parent)
            &&& parent.len() < text.len()
            &&& parent.is_prefix_of(text)
            &&& components(parent) == components(text).drop_last()
        },
{
    assert(components(text)[0] == head(text)[0]);
    if components(text).len() > 1 {
        let some = lemma_some_parent_end(text);
        let least = lemma_shortest_start(text, some);
        assert(is_parent_end(text, least));
        let end = choose|end: int| is_parent_end(text, end);
        lemma_parent_end_unique(text, least, end);
        if end == 0 {
            assert(text.take(0) == Seq::<u8>::empty());
            lemma_empty_text();
        }
        assert(text.take(end) == text.subrange(0, end));
    }
}

/// No start of an absolute text that is shorter than the parent's text has the
/// parent's components.
pub proof fn parent_is_shortest(text: Seq<u8>, m: int)
    requires
        is_absolute(text),
        parent_text(text) is Some,
        0 <= m < (parent_text(text)->0).len(),
    ensures
        components(text.take(m)) != components(text).drop_last(),
{
    let some = lemma_some_parent_end(text);
    let least = lemma_shortest_start(text, some);
    assert(is_parent_end(text, least));
    let end = choose|end: int| is_parent_end(text, end);
    assert(is_parent_end(text, end));
    assert(components(text.take(m)) != components(text.take(end)));
}

/// Whether a piece is a component.
fn is_name_of(piece: &Vec<u8>) -> (res: bool)
    ensures
        res == is_name(piece@),
{
    if piece.len() == 1 {
        assert(piece@[0] == DOT ==> piece@ == seq![DOT]);
        piece[0] != DOT
    } else {
        piece.len() > 0
    }
}

/// Splits a text into its components.
pub fn components_of(text: &[u8]) -> (parts: Vec<Vec<u8>>)
    ensures
        order::byte_views(parts@) == components(text@),
{
    let mut parts: Vec<Vec<u8>> = Vec::new();
    if text.len() > 0 {
        if text[0] == SEPARATOR {
            let mut root: Vec<u8> = Vec::new();
            root.push(SEPARATOR);
            assert(root@ == seq![SEPARATOR]);
            parts.push(root);
        } else if text[0] == DOT && (text.len() == 1 || text[1] == SEPARATOR) {
            let mut here: Vec<u8> = Vec::new();
            here.push(DOT);
            assert(here@ == seq![DOT]);
            parts.push(here);
        }
    }
    assert(order::byte_views(parts@) == head(text@));
    let mut piece: Vec<u8> = Vec::new();
    let mut i: usize = 0;
    proof {
        assert(text@.take(0) == Seq::<u8>::empty());
        lemma_empty_text();
        assert(order::byte_views(parts@) == head(text@) + names(split(text@.take(0)).drop_last()));
    }
    while i < text.len()
        invariant
            i <= text.len(),
            split(text@.take(i as int)).len() >= 1,
            piece@ == split(text@.take(i as int)).last(),
            order::byte_views(parts@) == head(text@) + names(split(text@.take(i as int)).drop_last()),
        decreases text.len() - i,
    {
        let byte: u8 = text[i];
        let ghost before = text@.take(i as int);
        proof {
            lemma_split_push(before, byte);
            lemma_body_parts(before);
            assert(before.push(byte) == text@.take(i + 1));
        }
        if byte == SEPARATOR {
            let ghost old_parts = order::byte_views(parts@);
            if is_name_of(&piece) {
                let ghost added = piece@;
                parts.push(piece);
                assert(order::byte_views(parts@) == old_parts.push(added));
            }
            proof {
                assert(split(text@.take(i + 1)).drop_last() == split(before));
                assert(order::byte_views(parts@) == head(text@) + body(before));
            }
            piece = Vec::new();
        } else {
            piece.push(byte);
            assert(split(text@.take(i + 1)).drop_last() == split(before).drop_last());
        }
        i = i + 1;
    }
    proof {
        assert(text@.take(i as int) == text@);
        lemma_body_parts(text@);
    }
    let ghost old_parts = order::byte_views(parts@);
    if is_name_of(&piece) {
        let ghost added = piece@;
        parts.push(piece);
        assert(order::byte_views(parts@) == old_parts.push(added));
        assert(order::byte_views(parts@) == head(text@) + names(split(text@).drop_last()).push(added));
    }
    parts
}

/// The length of the parent's text, if the path has a parent.
pub fn parent_end(text: &[u8]) -> (end: Option<usize>)
    requires
        is_absolute(text@),
    ensures
        match end {
            Some(end) => end <= text.len() && parent_text(text@) == Some(text@.take(end as int)),
            None => parent_text(text@) is None,
        },
{
    let ghost t = text@;
    let mut before: usize = 1;
    let mut last: usize = 1;
    let mut found: bool = false;
    let mut piece: Vec<u8> = Vec::new();
    let mut i: usize = 1;
    proof {
        let root = t.take(1);
        assert(t.take(0) == Seq::<u8>::empty());
        assert(t.take(0).push(t[0]) == root);
        lemma_split_push(t.take(0), t[0]);
        lemma_empty_text();
        lemma_body_parts(root);
        assert(split(root).drop_last() == split(t.take(0)));
        assert(body(root).len() == 0);
        assert(is_absolute(root));
        assert(components(root) == head(t) + names(split(root).drop_last()));
        assert(is_shortest(t, 1)) by {
            assert forall|m: int| 0 <= m < 1 implies components(#[trigger] t.take(m))
                != components(t.take(1)) by {
                assert(components(t.take(m)).len() == 0);
                assert(components(t.take(1)).len() == 1);
            }
        }
    }
    while i < text.len()
        invariant
            t == text@,
            is_absolute(t),
            1 <= i <= text.len(),
            split(t.take(i as int)).len() >= 1,
            piece@ == split(t.take(i as int)).last(),
            is_name(piece@) ==> t[i - 1] != SEPARATOR && i > 1,
            1 <= before <= last <= i,
            is_shortest(t, last as int),
            is_shortest(t, before as int),
            components(t.take(last as int)) == head(t) + names(
                split(t.take(i as int)).drop_last(),
            ),
            found == (names(split(t.take(i as int)).drop_last()).len() > 0),
            found ==> components(t.take(before as int)) == head(t) + names(
                split(t.take(i as int)).drop_last(),
            ).drop_last(),
        decreases text.len() - i,
    {
        let byte: u8 = text[i];
        let ghost start = t.take(i as int);
        proof {
            lemma_split_push(start, byte);
            lemma_body_parts(start);
            assert(start.push(byte) == t.take(i + 1));
        }
        if byte == SEPARATOR {
            assert(split(t.take(i + 1)).drop_last() == split(start));
            if is_name_of(&piece) {
                proof {
                    lemma_shortest_at_name(t, i as int);
                    assert(is_absolute(start));
                    assert(body(start).drop_last() == names(split(start).drop_last()));
                }
                before = last;
                last = i;
                found = true;
            }
            piece = Vec::new();
        } else {
            piece.push(byte);
            assert(split(t.take(i + 1)).drop_last() == split(start).drop_last());
        }
        i = i + 1;
    }
    proof {
        assert(t.take(i as int) == t);
        lemma_body_parts(t);
    }
    let ghost closed = names(split(t).drop_last());
    if is_name_of(&piece) {
        proof {
            assert((head(t) + body(t)).drop_last() == head(t) + closed);
            assert(is_parent_end(t, last as int));
            let end = choose|end: int| is_parent_end(t, end);
            lemma_parent_end_unique(t, last as int, end);
        }
        Some(last)
    } else if found {
        proof {
            assert((head(t) + body(t)).drop_last() == head(t) + closed.drop_last());
            assert(is_parent_end(t, before as int));
            let end = choose|end: int| is_parent_end(t, end);
            lemma_parent_end_unique(t, before as int, end);
        }
        Some(before)
    } else {
        None
    }
}

/// Whether a text begins at the root.
pub fn starts_at_root(text: &[u8]) -> (res: bool)
    ensures
        res == is_absolute(text@),
{
    text.len() > 0 && text[0] == SEPARATOR
}

/// Joins a path to a directory.
pub fn join(base: &[u8], path: &[u8]) -> (res: Vec<u8>)
    ensures
        res@ == joined(base@, path@),
{
    if starts_at_root(path) {
        return copy_bytes(path);
    }
    let mut res: Vec<u8> = copy_bytes(base);
    if base.len() > 0 && base[base.len() - 1] != SEPARATOR {
        res.push(SEPARATOR);
    }
    let ghost start = res@;
    let mut i: usize = 0;
    while i < path.len()
        invariant
            i <= path.len(),
            res@ == start + path@.take(i as int),
        decreases path.len() - i,
    {
        res.push(path[i]);
        assert(path@.take(i + 1) == path@.take(i as int).push(path@[i as int]));
        assert(start + path@.take(i + 1) == (start + path@.take(i as int)).push(path@[i as int]));
        i = i + 1;
    }
    assert(path@.take(i as int) == path@);
    res
}

/// Writes the components in a list, from the given one on, with separators
/// between them.
pub fn slash(parts: &Vec<Vec<u8>>, first: usize) -> (res: Vec<u8>)
    requires
        first <= parts@.len(),
    ensures
        res@ == slashed(order::byte_views(parts@).skip(first as int)),
{
    let mut res: Vec<u8> = Vec::new();
    let ghost all = order::byte_views(parts@);
    let ghost rest = all.skip(first as int);
    assert(rest.take(0) =~= Seq::<Seq<u8>>::empty());
    let mut i: usize = first;
    while i < parts.len()
        invariant
            first <= i <= parts.len(),
            all == order::byte_views(parts@),
            rest == all.skip(first as int),
            res@ == slashed(rest.take(i - first)),
        decreases parts.len() - i,
    {
        let ghost before = rest.take(i - first);
        let ghost after = rest.take(i - first + 1);
        proof {
            assert(after.drop_last() == before);
            assert(after.last() == parts@[i as int]@);
        }
        if i > first {
            res.push(SEPARATOR);
        }
        let ghost start = res@;
        let part: &Vec<u8> = &parts[i];
        let mut j: usize = 0;
        while j < part.len()
            invariant
                j <= part.len(),
                res@ == start + part@.take(j as int),
            decreases part.len() - j,
        {
            res.push(part[j]);
            assert(start + part@.take(j + 1) == (start + part@.take(j as int)).push(
                part@[j as int],
            ));
            j = j + 1;
        }
        proof {
            assert(part@.take(j as int) == part@);
            if i == first {
                assert(start + part@ =~= part@);
                assert(after[0] == part@);
            }
        }
        i = i + 1;
    }
    assert(rest.take(i - first) == rest);
    res
}

/// Whether a text ends with the given bytes.
pub fn ends_with(text: &[u8], suffix: &[u8]) -> (res: bool)
    ensures
        res == suffix@.is_suffix_of(text@),
{
    if suffix.len() > text.len() {
        return false;
    }
    let offset: usize = text.len() - suffix.len();
    let mut i: usize = 0;
    while i < suffix.len()
        invariant
            i <= suffix.len(),
            offset + suffix.len() == text.len(),
            forall|j: int| 0 <= j < i ==> suffix@[j] == text@[offset + j],
        decreases suffix.len() - i,
    {
        if suffix[i] != text[offset + i] {
            assert(text@.subrange(offset as int, text@.len() as int)[i as int] != suffix@[i as int]);
            return false;
        }
        i = i + 1;
    }
    assert(suffix@ == text@.subrange(offset as int, text@.len() as int));
    true
}

} // verus!
