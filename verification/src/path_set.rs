//! Sets of paths, kept in ascending order.

use vstd::prelude::*;

use crate::order;
use crate::order::Comparison;
use crate::path::AbsPath;
use crate::text;

verus! {

/// The mathematical set of paths: each member's components, with the text that
/// the member was added under.
pub type PathMap = Map<Seq<Seq<u8>>, Seq<u8>>;

/// The texts of a list of paths.
pub open spec fn texts(paths: Seq<AbsPath>) -> Seq<Seq<u8>> {
    paths.map_values(|path: AbsPath| path@)
}

/// Each text in the list is less than every later one.
pub open spec fn is_ascending(list: Seq<Seq<u8>>) -> bool {
    forall|i: int, j: int|
        0 <= i < j < list.len() ==> order::parts_less(
            text::components(#[trigger] list[i]),
            text::components(#[trigger] list[j]),
        )
}

/// The list has a text with the given components at the given index.
pub open spec fn is_listed_at(list: Seq<Seq<u8>>, key: Seq<Seq<u8>>, i: int) -> bool {
    0 <= i < list.len() && text::components(list[i]) == key
}

/// The set of the paths in a list.
pub open spec fn map_of(list: Seq<Seq<u8>>) -> PathMap {
    Map::new(
        |key: Seq<Seq<u8>>| exists|i: int| is_listed_at(list, key, i),
        |key: Seq<Seq<u8>>| list[choose|i: int| is_listed_at(list, key, i)],
    )
}

/// The members of a set in ascending order.
pub open spec fn ascending(map: PathMap) -> Seq<Seq<u8>> {
    choose|list: Seq<Seq<u8>>| is_ascending(list) && #[trigger] map_of(list) == map
}

/// The set with one more path. A path that is already a member stays under the
/// text that it has.
pub open spec fn with_path(map: PathMap, path: Seq<u8>) -> PathMap {
    if map.contains_key(text::components(path)) {
        map
    } else {
        map.insert(text::components(path), path)
    }
}

/// Whether a path is a member of a set.
pub open spec fn has_path(map: PathMap, path: Seq<u8>) -> bool {
    map.contains_key(text::components(path))
}

/// In an ascending list a text is found under its own components alone.
proof fn lemma_map_of_index(list: Seq<Seq<u8>>, i: int)
    requires
        is_ascending(list),
        0 <= i < list.len(),
    ensures
        map_of(list).contains_key(text::components(list[i])),
        map_of(list)[text::components(list[i])] == list[i],
{
    let key = text::components(list[i]);
    assert(is_listed_at(list, key, i));
    let j = choose|j: int| is_listed_at(list, key, j);
    order::parts_less_irreflexive(key);
    assert(i == j);
}

/// A set has one list of its members in ascending order.
pub proof fn ascending_unique(a: Seq<Seq<u8>>, b: Seq<Seq<u8>>)
    requires
        is_ascending(a),
        is_ascending(b),
        map_of(a) == map_of(b),
    ensures
        a == b,
    decreases a.len(),
{
    if a.len() == 0 {
        if b.len() > 0 {
            lemma_map_of_index(b, 0);
            let key = text::components(b[0]);
            assert(map_of(a).contains_key(key));
            let i = choose|i: int| is_listed_at(a, key, i);
            assert(is_listed_at(a, key, i));
        }
        assert(a == b);
    } else {
        let ka = text::components(a.last());
        lemma_map_of_index(a, a.len() - 1);
        assert(map_of(b).contains_key(ka));
        let j = choose|j: int| is_listed_at(b, ka, j);
        assert(is_listed_at(b, ka, j));
        let kb = text::components(b.last());
        lemma_map_of_index(b, b.len() - 1);
        assert(map_of(a).contains_key(kb));
        let i = choose|i: int| is_listed_at(a, kb, i);
        assert(is_listed_at(a, kb, i));
        if j < b.len() - 1 {
            assert(order::parts_less(ka, kb));
            if i < a.len() - 1 {
                assert(order::parts_less(kb, ka));
                order::parts_less_asymmetric(ka, kb);
            } else {
                order::parts_less_irreflexive(ka);
            }
        }
        assert(ka == kb);
        assert(a.last() == b.last());
        let a0 = a.drop_last();
        let b0 = b.drop_last();
        lemma_remove(a, a.len() - 1);
        lemma_remove(b, b.len() - 1);
        assert(a.remove(a.len() - 1) == a0);
        assert(b.remove(b.len() - 1) == b0);
        ascending_unique(a0, b0);
        assert(a == a0.push(a.last()));
        assert(b == b0.push(b.last()));
    }
}

/// What taking out one text does to the set of a list.
proof fn lemma_remove(list: Seq<Seq<u8>>, pos: int)
    requires
        is_ascending(list),
        0 <= pos < list.len(),
    ensures
        is_ascending(list.remove(pos)),
        map_of(list.remove(pos)) == map_of(list).remove(text::components(list[pos])),
{
    let after = list.remove(pos);
    let gone = text::components(list[pos]);
    assert forall|i: int, j: int| 0 <= i < j < after.len() implies order::parts_less(
        text::components(#[trigger] after[i]),
        text::components(#[trigger] after[j]),
    ) by {
        let i0 = if i < pos { i } else { i + 1 };
        let j0 = if j < pos { j } else { j + 1 };
        assert(after[i] == list[i0]);
        assert(after[j] == list[j0]);
    }
    order::parts_less_irreflexive(gone);
    assert forall|key: Seq<Seq<u8>>|
        map_of(after).contains_key(key) == map_of(list).remove(gone).contains_key(key) by {
        if map_of(after).contains_key(key) {
            let i = choose|i: int| is_listed_at(after, key, i);
            assert(is_listed_at(after, key, i));
            let i0 = if i < pos { i } else { i + 1 };
            assert(is_listed_at(list, key, i0));
            if key == gone {
                if i0 < pos {
                    assert(order::parts_less(text::components(list[i0]), gone));
                } else {
                    assert(order::parts_less(gone, text::components(list[i0])));
                }
            }
        }
        if map_of(list).contains_key(key) && key != gone {
            let i = choose|i: int| is_listed_at(list, key, i);
            assert(is_listed_at(list, key, i));
            let i1 = if i < pos { i } else { i - 1 };
            assert(is_listed_at(after, key, i1));
        }
    }
    assert forall|key: Seq<Seq<u8>>| #[trigger] map_of(after).contains_key(key) implies map_of(
        after,
    )[key] == map_of(list)[key] by {
        let i = choose|i: int| is_listed_at(after, key, i);
        assert(is_listed_at(after, key, i));
        let i0 = if i < pos { i } else { i + 1 };
        assert(after[i] == list[i0]);
        lemma_map_of_index(after, i);
        lemma_map_of_index(list, i0);
    }
    assert(map_of(after) =~= map_of(list).remove(gone));
}

/// What putting in one text at its place does to the set of a list.
proof fn lemma_insert(list: Seq<Seq<u8>>, pos: int, path: Seq<u8>)
    requires
        is_ascending(list),
        0 <= pos <= list.len(),
        forall|i: int|
            0 <= i < pos ==> order::parts_less(
                text::components(#[trigger] list[i]),
                text::components(path),
            ),
        forall|i: int|
            pos <= i < list.len() ==> order::parts_less(
                text::components(path),
                text::components(#[trigger] list[i]),
            ),
    ensures
        is_ascending(list.insert(pos, path)),
        !map_of(list).contains_key(text::components(path)),
        map_of(list.insert(pos, path)) == map_of(list).insert(text::components(path), path),
{
    let after = list.insert(pos, path);
    let key = text::components(path);
    assert forall|i: int, j: int| 0 <= i < j < after.len() implies order::parts_less(
        text::components(#[trigger] after[i]),
        text::components(#[trigger] after[j]),
    ) by {
        if i < pos {
            assert(after[i] == list[i]);
        } else if i > pos {
            assert(after[i] == list[i - 1]);
        }
        if j < pos {
            assert(after[j] == list[j]);
        } else if j > pos {
            assert(after[j] == list[j - 1]);
        }
    }
    assert(after[pos] == path);
    lemma_remove(after, pos);
    assert(after.remove(pos) == list);
    lemma_map_of_index(after, pos);
    assert(map_of(list) == map_of(after).remove(key));
    assert(map_of(after) =~= map_of(list).insert(key, path));
}

/// Whether a mathematical set is one that a list of paths can hold.
pub open spec fn is_listable(map: PathMap) -> bool {
    exists|list: Seq<Seq<u8>>| is_ascending(list) && #[trigger] map_of(list) == map
}

/// The members of a set in ascending order are exactly its members.
pub proof fn ascending_lists(map: PathMap)
    requires
        is_listable(map),
    ensures
        is_ascending(ascending(map)),
        map_of(ascending(map)) == map,
        forall|i: int|
            0 <= i < ascending(map).len() ==> has_path(map, #[trigger] ascending(map)[i])
                && map[text::components(ascending(map)[i])] == ascending(map)[i],
        forall|key: Seq<Seq<u8>>| #[trigger]
            map.contains_key(key) ==> exists|i: int| is_listed_at(ascending(map), key, i),
{
    let list = ascending(map);
    assert forall|i: int| 0 <= i < list.len() implies has_path(map, #[trigger] list[i])
        && map[text::components(list[i])] == list[i] by {
        lemma_map_of_index(list, i);
    }
}

/// The empty set can be listed.
pub proof fn empty_is_listable()
    ensures
        is_listable(Map::empty()),
{
    let list = Seq::<Seq<u8>>::empty();
    assert forall|key: Seq<Seq<u8>>| !map_of(list).contains_key(key) by {
        if map_of(list).contains_key(key) {
            let i = choose|i: int| is_listed_at(list, key, i);
            assert(is_listed_at(list, key, i));
        }
    }
    assert(map_of(list) =~= Map::empty());
    assert(is_ascending(list));
}

/// Taking out a path leaves a set that can be listed.
pub proof fn remove_is_listable(map: PathMap, key: Seq<Seq<u8>>)
    requires
        is_listable(map),
    ensures
        is_listable(map.remove(key)),
{
    ascending_lists(map);
    let list = ascending(map);
    if map.contains_key(key) {
        let i = choose|i: int| is_listed_at(list, key, i);
        assert(is_listed_at(list, key, i));
        lemma_remove(list, i);
        assert(map_of(list.remove(i)) == map.remove(key));
    } else {
        assert(map.remove(key) =~= map);
    }
}

proof fn lemma_place(list: Seq<Seq<u8>>, path: Seq<u8>) -> (pos: int)
    requires
        is_ascending(list),
        !map_of(list).contains_key(text::components(path)),
    ensures
        0 <= pos <= list.len(),
        forall|i: int|
            0 <= i < pos ==> order::parts_less(
                text::components(#[trigger] list[i]),
                text::components(path),
            ),
        forall|i: int|
            pos <= i < list.len() ==> order::parts_less(
                text::components(path),
                text::components(#[trigger] list[i]),
            ),
    decreases list.len(),
{
    let key = text::components(path);
    if list.len() == 0 {
        0
    } else {
        let last = text::components(list.last());
        lemma_map_of_index(list, list.len() - 1);
        order::parts_less_total(last, key);
        if order::parts_less(last, key) {
            assert forall|i: int| 0 <= i < list.len() implies order::parts_less(
                text::components(#[trigger] list[i]),
                key,
            ) by {
                if i < list.len() - 1 {
                    order::parts_less_transitive(text::components(list[i]), last, key);
                }
            }
            list.len() as int
        } else {
            let rest = list.drop_last();
            lemma_remove(list, list.len() - 1);
            assert(list.remove(list.len() - 1) == rest);
            let pos = lemma_place(rest, path);
            assert forall|i: int| 0 <= i < pos implies order::parts_less(
                text::components(#[trigger] list[i]),
                key,
            ) by {
                assert(list[i] == rest[i]);
            }
            assert forall|i: int| pos <= i < list.len() implies order::parts_less(
                key,
                text::components(#[trigger] list[i]),
            ) by {
                if i < list.len() - 1 {
                    assert(list[i] == rest[i]);
                }
            }
            pos
        }
    }
}

/// Adding a path leaves a set that can be listed.
pub proof fn with_path_is_listable(map: PathMap, path: Seq<u8>)
    requires
        is_listable(map),
    ensures
        is_listable(with_path(map, path)),
{
    if !has_path(map, path) {
        ascending_lists(map);
        let list = ascending(map);
        let pos = lemma_place(list, path);
        lemma_insert(list, pos, path);
        assert(map_of(list.insert(pos, path)) == with_path(map, path));
    }
}

proof fn lemma_remove_keys_listable(list: Seq<Seq<u8>>, keys: Set<Seq<Seq<u8>>>)
    requires
        is_ascending(list),
    ensures
        is_listable(map_of(list).remove_keys(keys)),
    decreases list.len(),
{
    let map = map_of(list);
    if list.len() == 0 {
        assert forall|key: Seq<Seq<u8>>| !map.contains_key(key) by {
            if map.contains_key(key) {
                let i = choose|i: int| is_listed_at(list, key, i);
                assert(is_listed_at(list, key, i));
            }
        }
        assert(map.remove_keys(keys) =~= map);
    } else {
        let rest = list.drop_last();
        let key = text::components(list.last());
        lemma_map_of_index(list, list.len() - 1);
        lemma_remove(list, list.len() - 1);
        assert(list.remove(list.len() - 1) == rest);
        lemma_remove_keys_listable(rest, keys);
        let before = map_of(rest).remove_keys(keys);
        if keys.contains(key) {
            assert(map.remove_keys(keys) =~= before);
        } else {
            with_path_is_listable(before, list.last());
            assert(map.remove_keys(keys) =~= with_path(before, list.last()));
        }
    }
}

/// Taking out several paths leaves a set that can be listed.
pub proof fn remove_keys_is_listable(map: PathMap, keys: Set<Seq<Seq<u8>>>)
    requires
        is_listable(map),
    ensures
        is_listable(map.remove_keys(keys)),
{
    ascending_lists(map);
    lemma_remove_keys_listable(ascending(map), keys);
}

/// A set of paths.
#[derive(Debug)]
pub struct PathSet {
    paths: Vec<AbsPath>,
}

impl View for PathSet {
    type V = PathMap;

    closed spec fn view(&self) -> PathMap {
        map_of(texts(self.paths@))
    }
}

impl PathSet {
    #[verifier::type_invariant]
    spec fn is_sorted(self) -> bool {
        is_ascending(texts(self.paths@))
    }

    /// The texts of the members, in ascending order.
    pub closed spec fn list(self) -> Seq<Seq<u8>> {
        texts(self.paths@)
    }

    /// The empty set.
    pub fn new() -> (res: PathSet)
        ensures
            res@ == Map::<Seq<Seq<u8>>, Seq<u8>>::empty(),
    {
        let res: PathSet = PathSet { paths: Vec::new() };
        proof {
            assert forall|key: Seq<Seq<u8>>| !res@.contains_key(key) by {
                if res@.contains_key(key) {
                    let i = choose|i: int| is_listed_at(texts(res.paths@), key, i);
                    assert(is_listed_at(texts(res.paths@), key, i));
                }
            }
            assert(res@ =~= Map::empty());
        }
        res
    }

    /// The number of members.
    pub fn len(&self) -> (res: usize)
        ensures
            res == self.list().len(),
            is_ascending(self.list()),
            map_of(self.list()) == self@,
            self.list() == ascending(self@),
            is_listable(self@),
    {
        proof {
            use_type_invariant(self);
            assert(is_ascending(self.list()) && map_of(self.list()) == self@);
            let list = ascending(self@);
            ascending_unique(self.list(), list);
        }
        self.paths.len()
    }

    /// The member at the given place in ascending order.
    pub fn path_at(&self, i: usize) -> (res: &AbsPath)
        requires
            i < self.list().len(),
        ensures
            res@ == self.list()[i as int],
            has_path(self@, res@),
            self@[text::components(res@)] == res@,
    {
        proof {
            use_type_invariant(self);
            lemma_map_of_index(texts(self.paths@), i as int);
        }
        &self.paths[i]
    }

    /// The place of a path in the list, and whether it is there.
    fn find(&self, path: &AbsPath) -> (res: (bool, usize))
        ensures
            res.1 <= self.paths@.len(),
            res.0 ==> res.1 < self.paths@.len() && text::components(self.paths@[res.1 as int]@)
                == text::components(path@),
            !res.0 ==> {
                &&& forall|i: int|
                    0 <= i < res.1 ==> order::parts_less(
                        text::components(#[trigger] texts(self.paths@)[i]),
                        text::components(path@),
                    )
                &&& forall|i: int|
                    res.1 <= i < self.paths@.len() ==> order::parts_less(
                        text::components(path@),
                        text::components(#[trigger] texts(self.paths@)[i]),
                    )
            },
    {
        proof {
            use_type_invariant(self);
        }
        let ghost list = texts(self.paths@);
        let ghost key = text::components(path@);
        let mut low: usize = 0;
        let mut high: usize = self.paths.len();
        while low < high
            invariant
                low <= high <= self.paths.len(),
                list == texts(self.paths@),
                is_ascending(list),
                key == text::components(path@),
                forall|i: int|
                    0 <= i < low ==> order::parts_less(text::components(#[trigger] list[i]), key),
                forall|i: int|
                    high <= i < list.len() ==> order::parts_less(
                        key,
                        text::components(#[trigger] list[i]),
                    ),
            decreases high - low,
        {
            let mid: usize = low + (high - low) / 2;
            assert(list[mid as int] == self.paths@[mid as int]@);
            match self.paths[mid].compare(path) {
                Comparison::Equal => {
                    return (true, mid);
                },
                Comparison::Less => {
                    proof {
                        assert forall|i: int| 0 <= i < mid + 1 implies order::parts_less(
                            text::components(#[trigger] list[i]),
                            key,
                        ) by {
                            if i < mid {
                                order::parts_less_transitive(
                                    text::components(list[i]),
                                    text::components(list[mid as int]),
                                    key,
                                );
                            }
                        }
                    }
                    low = mid + 1;
                },
                Comparison::Greater => {
                    proof {
                        assert forall|i: int| mid <= i < list.len() implies order::parts_less(
                            key,
                            text::components(#[trigger] list[i]),
                        ) by {
                            if mid < i {
                                order::parts_less_transitive(
                                    key,
                                    text::components(list[mid as int]),
                                    text::components(list[i]),
                                );
                            }
                        }
                    }
                    high = mid;
                },
            }
        }
        (false, low)
    }

    /// Whether the path is a member.
    pub fn contains(&self, path: &AbsPath) -> (res: bool)
        ensures
            res == has_path(self@, path@),
    {
        let (found, pos): (bool, usize) = self.find(path);
        proof {
            use_type_invariant(self);
            let list = texts(self.paths@);
            if found {
                lemma_map_of_index(list, pos as int);
            } else {
                lemma_insert(list, pos as int, path@);
            }
        }
        found
    }

    /// Adds a path. The result is whether it was not a member before.
    pub fn insert(&mut self, path: AbsPath) -> (res: bool)
        ensures
            res == !has_path(old(self)@, path@),
            final(self)@ == with_path(old(self)@, path@),
    {
        let (found, pos): (bool, usize) = self.find(&path);
        let ghost before = self.paths@;
        proof {
            use_type_invariant(&*self);
            let list = texts(before);
            if found {
                lemma_map_of_index(list, pos as int);
            } else {
                lemma_insert(list, pos as int, path@);
                assert(texts(before.insert(pos as int, path)) == list.insert(pos as int, path@));
            }
        }
        if found {
            return false;
        }
        let mut paths: Vec<AbsPath> = Vec::new();
        std::mem::swap(&mut paths, &mut self.paths);
        paths.insert(pos, path);
        self.paths = paths;
        true
    }

    /// Takes a path out. The result is whether it was a member.
    pub fn remove(&mut self, path: &AbsPath) -> (res: bool)
        ensures
            res == has_path(old(self)@, path@),
            final(self)@ == old(self)@.remove(text::components(path@)),
    {
        let (found, pos): (bool, usize) = self.find(path);
        let ghost before = self.paths@;
        proof {
            use_type_invariant(&*self);
            let list = texts(before);
            if found {
                lemma_map_of_index(list, pos as int);
                lemma_remove(list, pos as int);
                assert(texts(before.remove(pos as int)) == list.remove(pos as int));
            } else {
                lemma_insert(list, pos as int, path@);
                assert(map_of(list).remove(text::components(path@)) =~= map_of(list));
            }
        }
        if !found {
            return false;
        }
        let mut paths: Vec<AbsPath> = Vec::new();
        std::mem::swap(&mut paths, &mut self.paths);
        let gone: AbsPath = paths.remove(pos);
        self.paths = paths;
        true
    }

    /// The members that are in none of two other sets.
    pub fn without(&self, other: &PathSet, another: &PathSet) -> (res: PathSet)
        ensures
            res@ == self@.remove_keys(other@.dom().union(another@.dom())),
    {
        proof {
            use_type_invariant(self);
        }
        let mut res: PathSet = PathSet::new();
        let n: usize = self.len();
        let ghost list = self.list();
        let ghost gone = other@.dom().union(another@.dom());
        let mut i: usize = 0;
        while i < n
            invariant
                i <= n,
                n == list.len(),
                list == self.list(),
                is_ascending(list),
                map_of(list) == self@,
                gone == other@.dom().union(another@.dom()),
                forall|key: Seq<Seq<u8>>| #[trigger]
                    res@.contains_key(key) ==> self@.contains_key(key) && !gone.contains(key)
                        && res@[key] == self@[key],
                forall|j: int|
                    0 <= j < i && !gone.contains(text::components(list[j])) ==> res@.contains_key(
                        text::components(#[trigger] list[j]),
                    ),
            decreases n - i,
        {
            let path: &AbsPath = self.path_at(i);
            if !other.contains(path) && !another.contains(path) {
                let fresh: bool = res.insert(path.clone());
            }
            i = i + 1;
        }
        proof {
            let want = self@.remove_keys(gone);
            assert forall|key: Seq<Seq<u8>>| res@.contains_key(key) == want.contains_key(key) by {
                if want.contains_key(key) {
                    assert(map_of(list).contains_key(key));
                    let j = choose|j: int| is_listed_at(list, key, j);
                    assert(is_listed_at(list, key, j));
                    assert(text::components(list[j]) == key);
                }
            }
            assert(res@ =~= want);
        }
        res
    }
}

impl Clone for PathSet {
    fn clone(&self) -> (res: Self)
        ensures
            res@ == self@,
    {
        let none: PathSet = PathSet::new();
        let res: PathSet = self.without(&none, &none);
        assert(res@ =~= self@);
        res
    }
}

} // verus!
