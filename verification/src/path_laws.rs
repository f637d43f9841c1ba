//! What the texts, names and places of paths mean, byte by byte.

use vstd::prelude::*;

use crate::order;
use crate::path;
use crate::path_set;
use crate::rules;
use crate::text;

verus! {

/// The bytes of a text in ASCII.
pub open spec fn ascii(chars: Seq<char>) -> Seq<u8> {
    chars.map_values(|c: char| c as u8)
}

// ---------------------------------------------------------------------------
// Components
// ---------------------------------------------------------------------------
/// A piece between two separators that is a component: bytes without a separator,
/// neither none nor a single dot.
pub open spec fn is_piece(piece: Seq<u8>) -> bool {
    &&& forall|i: int| 0 <= i < piece.len() ==> piece[i] != 0x2fu8
    &&& piece.len() > 0
    &&& !(piece.len() == 1 && piece[0] == 0x2eu8)
}

/// A piece between two separators that is no component: none or a single dot.
pub open spec fn is_filler(piece: Seq<u8>) -> bool {
    piece.len() == 0 || piece.len() == 1 && piece[0] == 0x2eu8
}

/// The components of a text are the place where it begins, the root or a leading
/// dot that stands alone, and what follows.
pub proof fn components_begin_where_text_begins(text: Seq<u8>)
    ensures
        text.len() > 0 && text[0] == 0x2f ==> text::components(text) == seq![seq![0x2fu8]]
            + text::body(text),
        text.len() > 0 && text[0] == 0x2e && (text.len() == 1 || text[1] == 0x2f)
            ==> text::components(text) == seq![seq![0x2eu8]] + text::body(text),
        !(text.len() > 0 && text[0] == 0x2f) && !(text.len() > 0 && text[0] == 0x2e && (text.len()
            == 1 || text[1] == 0x2f)) ==> text::components(text) == text::body(text),
{
    assert(Seq::<Seq<u8>>::empty() + text::body(text) =~= text::body(text));
}

/// One piece alone: a component is the only one of its text, and a filler gives
/// none.
pub proof fn one_piece_has_itself(piece: Seq<u8>)
    ensures
        is_piece(piece) ==> text::body(piece) == seq![piece],
        is_filler(piece) ==> text::body(piece).len() == 0,
{
    if is_piece(piece) {
        assert(piece != seq![0x2eu8]) by {
            if piece == seq![0x2eu8] {
                assert(piece[0] == 0x2eu8);
            }
        }
        text::name_is_body(piece);
    }
    if is_filler(piece) {
        if piece.len() == 1 {
            assert(piece == seq![0x2eu8]);
        } else {
            assert(piece == Seq::<u8>::empty());
        }
        text::filler_has_no_body(piece);
    }
}

/// A further piece behind a separator adds itself where it is a component, and
/// nothing where it is a filler.
pub proof fn further_piece_adds_itself(text: Seq<u8>, piece: Seq<u8>)
    ensures
        is_piece(piece) ==> text::body(text.push(0x2f) + piece) == text::body(text).push(piece),
        is_filler(piece) ==> text::body(text.push(0x2f) + piece) == text::body(text),
{
    text::separated_body(text, piece);
    one_piece_has_itself(piece);
    if is_piece(piece) {
        assert(text::body(text) + seq![piece] =~= text::body(text).push(piece));
    }
    if is_filler(piece) {
        assert(text::body(text) + text::body(piece) =~= text::body(text));
    }
}

/// A path taken from a directory: itself where it begins with a separator,
/// otherwise the directory's text, a separator unless one is there already or the
/// text is empty, and its own.
pub proof fn joined_text_is_written_out(base: Seq<u8>, path: Seq<u8>)
    ensures
        path.len() > 0 && path[0] == 0x2f ==> text::joined(base, path) == path,
        !(path.len() > 0 && path[0] == 0x2f) && (base.len() == 0 || base.last() == 0x2f)
            ==> text::joined(base, path) == base + path,
        !(path.len() > 0 && path[0] == 0x2f) && !(base.len() == 0 || base.last() == 0x2f)
            ==> text::joined(base, path) == base + seq![0x2fu8] + path,
{
    assert(base + seq![0x2fu8] + path =~= base.push(0x2f) + path);
}

/// The parent's text is the shortest start of the text that has the parent's
/// components, which are all but the last.
pub proof fn parent_is_shortest_start(path: Seq<u8>, m: int)
    requires
        path.len() > 0,
        path[0] == 0x2f,
        text::parent_text(path) is Some,
        0 <= m < (text::parent_text(path)->0).len(),
    ensures
        text::components(text::parent_text(path)->0) == text::components(path).drop_last(),
        text::parent_text(path)->0 == path.take((text::parent_text(path)->0).len() as int),
        text::components(path.take(m)) != text::components(path).drop_last(),
{
    text::parent_properties(path);
    text::parent_is_shortest(path, m);
    let parent = text::parent_text(path)->0;
    assert(parent == path.take(parent.len() as int));
}

/// A path is resolved to itself where it begins with a separator, otherwise to the
/// text behind the current directory, and not at all where that is not known.
pub proof fn resolving_is_exact(path: Seq<u8>, dir: Seq<u8>)
    ensures
        path.len() > 0 && path[0] == 0x2f ==> path::resolved(path, None) == Some(path)
            && path::resolved(path, Some(dir)) == Some(path),
        !(path.len() > 0 && path[0] == 0x2f) ==> path::resolved(path, None) is None
            && path::resolved(path, Some(dir)) == Some(text::joined(dir, path)),
{
}

/// What lies below a directory has the components of the path that follow those of
/// the directory.
pub proof fn below_continues_the_directory(path: Seq<u8>, dir: Seq<u8>)
    requires
        path.len() > 0,
        path[0] == 0x2f,
        path::is_within(path, dir),
        text::components(dir).len() > 0,
    ensures
        text::components(dir) + text::components(path::below(path, dir)) == text::components(path),
        path::below(path, dir).len() == 0 || path::below(path, dir)[0] != 0x2f,
{
    let n = text::components(dir).len();
    let parts = text::components(path);
    let rest = parts.skip(n as int);
    text::parent_properties(path);
    text::body_is_clean(path);
    assert forall|i: int| 0 <= i < rest.len() implies text::is_clean(#[trigger] rest[i]) by {
        assert(rest[i] == text::body(path)[n - 1 + i]);
    }
    text::slashed_components(rest);
    assert(text::components(dir) + rest =~= parts);
}

/// What lies below a directory without components, the empty text, is all of the path
/// behind the root.
pub proof fn below_nothing_is_below_the_root(path: Seq<u8>, dir: Seq<u8>)
    requires
        path.len() > 0,
        path[0] == 0x2f,
        text::components(dir).len() == 0,
    ensures
        text::components(path::below(path, dir)) == text::components(path).skip(1),
{
    let rest = text::components(path).skip(1);
    text::parent_properties(path);
    text::body_is_clean(path);
    assert(rest =~= text::body(path));
    text::slashed_components(rest);
}

/// Components are written one behind the other with a single separator between each
/// two, and none before or behind.
pub proof fn components_are_written_with_one_separator(parts: Seq<Seq<u8>>, part: Seq<u8>)
    ensures
        text::slashed(Seq::empty()).len() == 0,
        parts.len() == 0 ==> text::slashed(parts.push(part)) == part,
        parts.len() > 0 ==> text::slashed(parts.push(part)) == text::slashed(parts)
            + seq![0x2fu8] + part,
{
    assert(parts.push(part).drop_last() =~= parts);
    if parts.len() > 0 {
        assert(text::slashed(parts) + seq![0x2fu8] + part =~= text::slashed(parts).push(0x2f)
            + part);
    }
}

/// What lies below a directory is written from the components that follow.
pub proof fn below_is_written_from_components(path: Seq<u8>, dir: Seq<u8>)
    ensures
        text::components(dir).len() > 0 ==> path::below(path, dir) == text::slashed(
            text::components(path).skip(text::components(dir).len() as int),
        ),
        text::components(dir).len() == 0 ==> path::below(path, dir) == text::slashed(
            text::components(path).skip(1),
        ),
{
}

/// A pattern is asked about what lies below its base, and about the whole path
/// where the path does not lie below.
pub proof fn pattern_is_matched_from_its_base(path: Seq<u8>, glob: rules::GlobView)
    ensures
        path::is_within(path, glob.base) ==> path::pattern_matches(path, glob)
            == rules::glob_matches(glob.pattern, path::below(path, glob.base)),
        !path::is_within(path, glob.base) ==> path::pattern_matches(path, glob)
            == rules::glob_matches_outside(glob.base, glob.pattern, path),
        path::is_covered(path, glob.from) == (glob.from is None || path::is_within(
            path,
            glob.from->0,
        )),
{
}

// ---------------------------------------------------------------------------
// Names
// ---------------------------------------------------------------------------
/// The names of version control data, each and no other.
pub proof fn scm_names_are_exact(part: Seq<u8>)
    ensures
        path::is_scm_marker(part) == (part == ascii(".git"@) || part == ascii(".hg"@) || part
            == ascii(".svn"@) || part == ascii("_darcs"@) || part == ascii(".bzr"@) || part
            == ascii(".fossil-settings"@)),
        path::git_marker() == ascii(".git"@),
{
    reveal_strlit(".git");
    reveal_strlit(".hg");
    reveal_strlit(".svn");
    reveal_strlit("_darcs");
    reveal_strlit(".bzr");
    reveal_strlit(".fossil-settings");
    assert(ascii(".git"@) =~= path::git_marker());
    assert(ascii(".hg"@) =~= seq!['.' as u8, 'h' as u8, 'g' as u8]);
    assert(ascii(".svn"@) =~= seq!['.' as u8, 's' as u8, 'v' as u8, 'n' as u8]);
    assert(ascii("_darcs"@) =~= seq![
        '_' as u8,
        'd' as u8,
        'a' as u8,
        'r' as u8,
        'c' as u8,
        's' as u8,
    ]);
    assert(ascii(".bzr"@) =~= seq!['.' as u8, 'b' as u8, 'z' as u8, 'r' as u8]);
    assert(ascii(".fossil-settings"@) =~= seq![
        '.' as u8,
        'f' as u8,
        'o' as u8,
        's' as u8,
        's' as u8,
        'i' as u8,
        'l' as u8,
        '-' as u8,
        's' as u8,
        'e' as u8,
        't' as u8,
        't' as u8,
        'i' as u8,
        'n' as u8,
        'g' as u8,
        's' as u8,
    ]);
}

/// A path belongs to version control data where one of its components has such a
/// name.
pub proof fn scm_paths_are_exact(path: Seq<u8>)
    ensures
        path::has_scm_marker(path) == exists|i: int|
            0 <= i < text::components(path).len() && path::is_scm_marker(
                #[trigger] text::components(path)[i],
            ),
{
}

/// The names of ignore files, each and no other, and that a path is an ignore file
/// by its last component.
pub proof fn ignore_names_are_exact(path: Seq<u8>, part: Seq<u8>)
    ensures
        path::is_ignore_name(part) == (part == ascii(".gitignore"@) || part == ascii(
            ".hgignore"@,
        ) || part == ascii(".ignore"@)),
        path::names_ignore_file(path) == (text::components(path).len() > 0 && path::is_ignore_name(
            text::components(path)[text::components(path).len() - 1],
        )),
{
    reveal_strlit(".gitignore");
    reveal_strlit(".hgignore");
    reveal_strlit(".ignore");
    assert(ascii(".gitignore"@) =~= seq![
        '.' as u8,
        'g' as u8,
        'i' as u8,
        't' as u8,
        'i' as u8,
        'g' as u8,
        'n' as u8,
        'o' as u8,
        'r' as u8,
        'e' as u8,
    ]);
    assert(ascii(".hgignore"@) =~= seq![
        '.' as u8,
        'h' as u8,
        'g' as u8,
        'i' as u8,
        'g' as u8,
        'n' as u8,
        'o' as u8,
        'r' as u8,
        'e' as u8,
    ]);
    assert(ascii(".ignore"@) =~= seq![
        '.' as u8,
        'i' as u8,
        'g' as u8,
        'n' as u8,
        'o' as u8,
        'r' as u8,
        'e' as u8,
    ]);
}

/// A path is a Git exclude or config file by the end of its text.
pub proof fn git_settings_are_exact(path: Seq<u8>)
    ensures
        path::names_git_settings(path) == exists|start: Seq<u8>|
            path == #[trigger] (start + ascii("/.git/info/exclude"@)) || path == start + ascii(
                "/.git/config"@,
            ),
        path::exclude_suffix() == ascii("/.git/info/exclude"@),
        path::config_suffix() == ascii("/.git/config"@),
{
    reveal_strlit("/.git/info/exclude");
    reveal_strlit("/.git/config");
    let a = ascii("/.git/info/exclude"@);
    let b = ascii("/.git/config"@);
    assert(path::exclude_suffix() =~= a);
    assert(path::config_suffix() =~= b);
    if a.is_suffix_of(path) {
        assert(path =~= path.take(path.len() - a.len()) + a);
    }
    if b.is_suffix_of(path) {
        let start = path.take(path.len() - b.len());
        assert(path =~= start + b);
        assert((start + a).len() >= 0);
    }
    if exists|start: Seq<u8>| path == #[trigger] (start + a) || path == start + b {
        let start = choose|start: Seq<u8>| path == #[trigger] (start + a) || path == start + b;
        if path == start + a {
            assert(path.subrange(path.len() - a.len(), path.len() as int) =~= a);
        } else {
            assert(path.subrange(path.len() - b.len(), path.len() as int) =~= b);
        }
    }
}

// ---------------------------------------------------------------------------
// Order and sets
// ---------------------------------------------------------------------------
/// Kinds of components in their order: the root, the current directory, the parent
/// directory, then every name.
pub open spec fn kind_of(part: Seq<u8>) -> int {
    if part == ascii("/"@) {
        0
    } else if part == ascii("."@) {
        1
    } else if part == ascii(".."@) {
        2
    } else {
        3
    }
}

/// The first `k` bytes of `a` and `b` are the same, and then `a` ends or has the
/// smaller byte.
pub open spec fn byte_before_at(a: Seq<u8>, b: Seq<u8>, k: int) -> bool {
    &&& 0 <= k <= a.len()
    &&& k < b.len()
    &&& forall|j: int| 0 <= j < k ==> a[j] == b[j]
    &&& k == a.len() || a[k] < b[k]
}

/// `a` comes before `b` in the order of a dictionary over bytes.
pub open spec fn byte_before(a: Seq<u8>, b: Seq<u8>) -> bool {
    exists|k: int| byte_before_at(a, b, k)
}

/// Components are ordered by their kind, and names by their bytes.
pub proof fn components_are_ordered_by_kind_and_bytes(a: Seq<u8>, b: Seq<u8>)
    ensures
        order::part_less(a, b) == (kind_of(a) < kind_of(b) || kind_of(a) == 3 && kind_of(b) == 3
            && byte_before(a, b)),
{
    reveal_strlit("/");
    reveal_strlit(".");
    reveal_strlit("..");
    assert(ascii("/"@) =~= seq![0x2fu8]);
    assert(ascii("."@) =~= seq![0x2eu8]);
    assert(ascii(".."@) =~= seq![0x2eu8, 0x2eu8]);
    if order::bytes_less(a, b) {
        let k = choose|k: int| #[trigger] order::bytes_less_at(a, b, k);
        assert forall|j: int| 0 <= j < k implies a[j] == b[j] by {
            assert(a.take(k)[j] == a[j]);
            assert(b.take(k)[j] == b[j]);
        }
        assert(byte_before_at(a, b, k));
    }
    if byte_before(a, b) {
        let k = choose|k: int| byte_before_at(a, b, k);
        assert(a.take(k) =~= b.take(k));
        assert(order::bytes_less_at(a, b, k));
    }
}

/// Of two paths the one whose components end first is less, and otherwise the first
/// components that differ decide.
pub proof fn paths_are_ordered_by_first_difference(
    start: Seq<Seq<u8>>,
    a: Seq<u8>,
    b: Seq<u8>,
    rest_a: Seq<Seq<u8>>,
    rest_b: Seq<Seq<u8>>,
)
    requires
        a != b,
    ensures
        order::parts_less(start, start.push(b) + rest_b),
        order::parts_less(start.push(a) + rest_a, start.push(b) + rest_b) == order::part_less(a, b),
{
    let x = start.push(a) + rest_a;
    let y = start.push(b) + rest_b;
    let n = start.len() as int;
    assert(start.take(n) =~= y.take(n));
    assert(order::parts_less_at(start, y, n));
    assert(x.take(n) =~= y.take(n));
    if order::part_less(a, b) {
        assert(order::parts_less_at(x, y, n));
    } else {
        order::part_less_total(a, b);
        assert(order::parts_less_at(y, x, n));
        order::parts_less_asymmetric(y, x);
    }
}

/// A path is in a set by its components; adding a path adds its components with its
/// text unless they are there, and changes nothing else.
pub proof fn sets_go_by_components(set: path_set::PathMap, path: Seq<u8>, key: Seq<Seq<u8>>)
    ensures
        path_set::has_path(set, path) == set.contains_key(text::components(path)),
        path_set::with_path(set, path).contains_key(key) == (set.contains_key(key) || key
            == text::components(path)),
        set.contains_key(key) ==> path_set::with_path(set, path)[key] == set[key],
        !set.contains_key(key) && key == text::components(path) ==> path_set::with_path(
            set,
            path,
        )[key] == path,
{
}

/// The list of a set holds each member once, smaller ones first: every member is
/// somewhere in the list under the text that it has, and of two places the first
/// holds the smaller path.
pub proof fn listing_is_exact(set: path_set::PathMap, path: Seq<u8>)
    requires
        path_set::is_listable(set),
    ensures
        path_set::ascending(set).contains(path) == (set.contains_key(text::components(path))
            && set[text::components(path)] == path),
        forall|i: int, j: int|
            0 <= i < j < path_set::ascending(set).len() ==> order::parts_less(
                text::components(#[trigger] path_set::ascending(set)[i]),
                text::components(#[trigger] path_set::ascending(set)[j]),
            ),
{
    let list = path_set::ascending(set);
    path_set::ascending_lists(set);
    if list.contains(path) {
        let i = choose|i: int| 0 <= i < list.len() && list[i] == path;
        assert(path_set::has_path(set, list[i]));
    }
    if set.contains_key(text::components(path)) && set[text::components(path)] == path {
        let key = text::components(path);
        let i = choose|i: int| path_set::is_listed_at(list, key, i);
        assert(path_set::is_listed_at(list, key, i));
        assert(path_set::has_path(set, list[i]));
        assert(list[i] == path);
    }
}

// ---------------------------------------------------------------------------
// The repository
// ---------------------------------------------------------------------------
/// The repository root is written as a start of the text of the directory.
pub proof fn repo_root_is_a_start_of_the_text(dir: Seq<u8>, existing: path_set::PathMap)
    requires
        dir.len() > 0,
        dir[0] == 0x2f,
    ensures
        path::repo_root(dir, existing) matches Some(root) ==> root.len() <= dir.len() && root
            == dir.take(root.len() as int),
    decreases dir.len(),
{
    text::parent_properties(dir);
    assert(dir.take(dir.len() as int) =~= dir);
    match text::parent_text(dir) {
        Some(parent) => {
            repo_root_is_a_start_of_the_text(parent, existing);
            if let Some(root) = path::repo_root(parent, existing) {
                assert(parent == dir.subrange(0, parent.len() as int));
                assert(dir.take(root.len() as int) =~= parent.take(root.len() as int));
            }
        },
        None => {},
    }
}

/// The markers that are looked for are those of the directory and of every
/// directory around it, and no others.
pub proof fn markers_are_of_all_directories_above(dir: Seq<u8>, other: Seq<u8>)
    requires
        dir.len() > 0,
        dir[0] == 0x2f,
        other.len() > 0,
        other[0] == 0x2f,
        path::is_within(dir, other),
    ensures
        exists|i: int|
            0 <= i < path::repo_markers(dir).len() && text::components(
                #[trigger] path::repo_markers(dir)[i],
            ) == text::components(other).push(ascii(".git"@)),
    decreases dir.len(),
{
    scm_names_are_exact(Seq::empty());
    let marker = path::git_marker();
    let all = path::repo_markers(dir);
    text::name_is_body(marker);
    text::joined_components(dir, marker);
    text::parent_properties(dir);
    text::parent_properties(other);
    let d = text::components(dir);
    let o = text::components(other);
    if d.len() == o.len() {
        assert(d.subrange(0, o.len() as int) =~= d);
        assert(all[0] == text::joined(dir, marker));
        assert(d + seq![marker] =~= o.push(ascii(".git"@)));
    } else {
        let parent = text::parent_text(dir)->0;
        path::parent_is_nearest(dir, other);
        markers_are_of_all_directories_above(parent, other);
        let above = path::repo_markers(parent);
        let i = choose|i: int|
            0 <= i < above.len() && text::components(#[trigger] above[i]) == o.push(
                ascii(".git"@),
            );
        assert(all[i + 1] == above[i]);
    }
}

} // verus!
