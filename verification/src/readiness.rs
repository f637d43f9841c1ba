//! Which directories the tracker's knowledge is up to date for.

use vstd::prelude::*;

use crate::path::AbsDirPath;
use crate::text;

verus! {

/// Whether what is known of a directory is up to date.
#[derive(Debug, Clone, Copy, PartialEq, Eq, Structural)]
pub enum SegmentReadiness {
    Ready,
    Dirty,
}

/// The directory at the given index has the given components.
pub open spec fn is_dir_at(dirs: Seq<AbsDirPath>, key: Seq<Seq<u8>>, i: int) -> bool {
    0 <= i < dirs.len() && text::components(dirs[i]@) == key
}

/// What is known of each directory, by its components.
pub open spec fn readiness_of(dirs: Seq<AbsDirPath>, states: Seq<SegmentReadiness>) -> Map<
    Seq<Seq<u8>>,
    SegmentReadiness,
> {
    Map::new(
        |key: Seq<Seq<u8>>| exists|i: int| is_dir_at(dirs, key, i),
        |key: Seq<Seq<u8>>| states[choose|i: int| is_dir_at(dirs, key, i)],
    )
}

/// No two directories in the list are the same.
pub open spec fn are_distinct(dirs: Seq<AbsDirPath>) -> bool {
    forall|i: int, j: int|
        0 <= i < j < dirs.len() ==> text::components(#[trigger] dirs[i]@) != text::components(
            #[trigger] dirs[j]@,
        )
}

/// What is known of each directory.
#[derive(Debug)]
pub struct ReadinessMap {
    dirs: Vec<AbsDirPath>,
    states: Vec<SegmentReadiness>,
}

impl View for ReadinessMap {
    type V = Map<Seq<Seq<u8>>, SegmentReadiness>;

    closed spec fn view(&self) -> Map<Seq<Seq<u8>>, SegmentReadiness> {
        readiness_of(self.dirs@, self.states@)
    }
}

proof fn lemma_readiness_at(dirs: Seq<AbsDirPath>, states: Seq<SegmentReadiness>, i: int)
    requires
        are_distinct(dirs),
        dirs.len() == states.len(),
        0 <= i < dirs.len(),
    ensures
        readiness_of(dirs, states).contains_key(text::components(dirs[i]@)),
        readiness_of(dirs, states)[text::components(dirs[i]@)] == states[i],
{
    let key = text::components(dirs[i]@);
    assert(is_dir_at(dirs, key, i));
    let j = choose|j: int| is_dir_at(dirs, key, j);
    assert(i == j);
}

impl ReadinessMap {
    #[verifier::type_invariant]
    spec fn is_keyed(self) -> bool {
        &&& self.dirs@.len() == self.states@.len()
        &&& are_distinct(self.dirs@)
    }

    /// Nothing is known of any directory.
    pub fn new() -> (res: ReadinessMap)
        ensures
            res@ == Map::<Seq<Seq<u8>>, SegmentReadiness>::empty(),
    {
        let res: ReadinessMap = ReadinessMap { dirs: Vec::new(), states: Vec::new() };
        proof {
            assert forall|key: Seq<Seq<u8>>| !res@.contains_key(key) by {
                if res@.contains_key(key) {
                    let i = choose|i: int| is_dir_at(res.dirs@, key, i);
                    assert(is_dir_at(res.dirs@, key, i));
                }
            }
            assert(res@ =~= Map::empty());
        }
        res
    }

    /// The place of a directory in the list, if it is there.
    fn find(&self, dir: &AbsDirPath) -> (res: Option<usize>)
        ensures
            match res {
                Some(pos) => {
                    &&& pos < self.dirs@.len()
                    &&& text::components(self.dirs@[pos as int]@) == text::components(dir@)
                },
                None => forall|i: int|
                    0 <= i < self.dirs@.len() ==> text::components(#[trigger] self.dirs@[i]@)
                        != text::components(dir@),
            },
    {
        let mut i: usize = 0;
        while i < self.dirs.len()
            invariant
                i <= self.dirs.len(),
                forall|j: int|
                    0 <= j < i ==> text::components(#[trigger] self.dirs@[j]@) != text::components(
                        dir@,
                    ),
            decreases self.dirs.len() - i,
        {
            if self.dirs[i] == *dir {
                return Some(i);
            }
            i = i + 1;
        }
        None
    }

    /// What is known of a directory, if anything is.
    pub fn get(&self, dir: &AbsDirPath) -> (res: Option<SegmentReadiness>)
        ensures
            match res {
                Some(state) => {
                    &&& self@.contains_key(text::components(dir@))
                    &&& self@[text::components(dir@)] == state
                },
                None => !self@.contains_key(text::components(dir@)),
            },
    {
        proof {
            use_type_invariant(self);
        }
        match self.find(dir) {
            Some(pos) => {
                proof {
                    lemma_readiness_at(self.dirs@, self.states@, pos as int);
                }
                Some(self.states[pos])
            },
            None => {
                proof {
                    let key = text::components(dir@);
                    if self@.contains_key(key) {
                        let i = choose|i: int| is_dir_at(self.dirs@, key, i);
                        assert(is_dir_at(self.dirs@, key, i));
                    }
                }
                None
            },
        }
    }

    /// Notes what is known of a directory.
    pub fn insert(&mut self, dir: AbsDirPath, state: SegmentReadiness)
        ensures
            final(self)@ == old(self)@.insert(text::components(dir@), state),
    {
        proof {
            use_type_invariant(&*self);
        }
        let found: Option<usize> = self.find(&dir);
        let ghost dirs0 = self.dirs@;
        let ghost states0 = self.states@;
        let ghost key = text::components(dir@);
        let mut dirs: Vec<AbsDirPath> = Vec::new();
        let mut states: Vec<SegmentReadiness> = Vec::new();
        let mut whole: ReadinessMap = ReadinessMap { dirs, states };
        std::mem::swap(&mut whole, self);
        dirs = whole.dirs;
        states = whole.states;
        match found {
            Some(pos) => {
                states.set(pos, state);
                proof {
                    lemma_same_dirs(dirs0, states0, states@);
                    assert forall|k: Seq<Seq<u8>>| #[trigger]
                        readiness_of(dirs0, states@).contains_key(k) implies readiness_of(
                        dirs0,
                        states@,
                    )[k] == readiness_of(dirs0, states0).insert(key, state)[k] by {
                        let i = choose|i: int| is_dir_at(dirs0, k, i);
                        assert(is_dir_at(dirs0, k, i));
                        lemma_readiness_at(dirs0, states0, i);
                        lemma_readiness_at(dirs0, states@, i);
                        if k == key {
                            assert(i == pos);
                        }
                    }
                    lemma_readiness_at(dirs0, states0, pos as int);
                    assert(readiness_of(dirs0, states@) =~= readiness_of(dirs0, states0).insert(
                        key,
                        state,
                    ));
                }
            },
            None => {
                dirs.push(dir);
                states.push(state);
                proof {
                    let after = readiness_of(dirs@, states@);
                    let want = readiness_of(dirs0, states0).insert(key, state);
                    assert(are_distinct(dirs@));
                    assert forall|k: Seq<Seq<u8>>| after.contains_key(k) == want.contains_key(k) by {
                        if after.contains_key(k) {
                            let i = choose|i: int| is_dir_at(dirs@, k, i);
                            assert(is_dir_at(dirs@, k, i));
                            if i < dirs0.len() {
                                assert(is_dir_at(dirs0, k, i));
                            }
                        }
                        if readiness_of(dirs0, states0).contains_key(k) {
                            let i = choose|i: int| is_dir_at(dirs0, k, i);
                            assert(is_dir_at(dirs0, k, i));
                            assert(is_dir_at(dirs@, k, i));
                        }
                        if k == key {
                            assert(is_dir_at(dirs@, k, dirs0.len() as int));
                        }
                    }
                    assert forall|k: Seq<Seq<u8>>| #[trigger] after.contains_key(k) implies after[k]
                        == want[k] by {
                        let i = choose|i: int| is_dir_at(dirs@, k, i);
                        assert(is_dir_at(dirs@, k, i));
                        lemma_readiness_at(dirs@, states@, i);
                        if i < dirs0.len() {
                            lemma_readiness_at(dirs0, states0, i);
                        }
                    }
                    assert(after =~= want);
                }
            },
        }
        *self = ReadinessMap { dirs, states };
    }

    /// Notes one state for every known directory at or within the given one, or
    /// for every known directory.
    pub fn set_within(&mut self, within: Option<&AbsDirPath>, state: SegmentReadiness)
        ensures
            final(self)@ == set_under(
                old(self)@,
                match within {
                    Some(dir) => Some(text::components(dir@)),
                    None => None,
                },
                state,
            ),
    {
        proof {
            use_type_invariant(&*self);
        }
        let ghost dirs0 = self.dirs@;
        let ghost states0 = self.states@;
        let ghost under = match within {
            Some(dir) => Some(text::components(dir@)),
            None => None,
        };
        let mut whole: ReadinessMap = ReadinessMap { dirs: Vec::new(), states: Vec::new() };
        std::mem::swap(&mut whole, self);
        let dirs: Vec<AbsDirPath> = whole.dirs;
        let mut states: Vec<SegmentReadiness> = whole.states;
        let mut i: usize = 0;
        while i < dirs.len()
            invariant
                i <= dirs.len(),
                dirs@ == dirs0,
                states@.len() == dirs0.len(),
                states0.len() == dirs0.len(),
                under == (match within {
                    Some(dir) => Some(text::components(dir@)),
                    None => None,
                }),
                forall|j: int|
                    0 <= j < dirs0.len() ==> #[trigger] states@[j] == (if j < i && is_under(
                        text::components(dirs0[j]@),
                        under,
                    ) {
                        state
                    } else {
                        states0[j]
                    }),
            decreases dirs.len() - i,
        {
            let hit: bool = match within {
                Some(dir) => dir.is_or_contains(dirs[i].as_ref()),
                None => true,
            };
            if hit {
                states.set(i, state);
            }
            i = i + 1;
        }
        proof {
            lemma_same_dirs(dirs0, states0, states@);
            let after = readiness_of(dirs0, states@);
            let want = set_under(readiness_of(dirs0, states0), under, state);
            assert forall|k: Seq<Seq<u8>>| #[trigger] after.contains_key(k) implies after[k]
                == want[k] by {
                let j = choose|j: int| is_dir_at(dirs0, k, j);
                assert(is_dir_at(dirs0, k, j));
                lemma_readiness_at(dirs0, states0, j);
                lemma_readiness_at(dirs0, states@, j);
            }
            assert(after =~= want);
        }
        *self = ReadinessMap { dirs, states };
    }
}

/// Whether a directory is at or within another one, or within any.
pub open spec fn is_under(key: Seq<Seq<u8>>, under: Option<Seq<Seq<u8>>>) -> bool {
    match under {
        Some(dir) => dir.is_prefix_of(key),
        None => true,
    }
}

/// One state for every known directory at or within the given one, or for every
/// known directory.
pub open spec fn set_under(
    map: Map<Seq<Seq<u8>>, SegmentReadiness>,
    under: Option<Seq<Seq<u8>>>,
    state: SegmentReadiness,
) -> Map<Seq<Seq<u8>>, SegmentReadiness> {
    Map::new(
        |key: Seq<Seq<u8>>| map.contains_key(key),
        |key: Seq<Seq<u8>>|
            if is_under(key, under) {
                state
            } else {
                map[key]
            },
    )
}

/// Other states do not change which directories are known.
proof fn lemma_same_dirs(
    dirs: Seq<AbsDirPath>,
    a: Seq<SegmentReadiness>,
    b: Seq<SegmentReadiness>,
)
    ensures
        readiness_of(dirs, a).dom() == readiness_of(dirs, b).dom(),
{
    assert(readiness_of(dirs, a).dom() =~= readiness_of(dirs, b).dom());
}

} // verus!
