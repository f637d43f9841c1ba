//! Which paths outside the repository are watched: the ignore files there, or
//! the directories in which they would be.

use vstd::prelude::*;

use crate::path;
use crate::path::{AbsDirPath, AbsPath};
use crate::path_set;
use crate::path_set::PathSet;
use crate::state::TrackerState;
use crate::text;

verus! {

/// The path to watch for an ignore file: none within the repository, the file
/// where it exists, otherwise its parent directory.
pub open spec fn watch_for(
    repo: Seq<u8>,
    file: Seq<u8>,
    existing: path_set::PathMap,
) -> Option<Seq<u8>> {
    if path::is_within(file, repo) {
        None
    } else if path_set::has_path(existing, file) {
        Some(file)
    } else {
        text::parent_text(file)
    }
}

/// The paths to watch for a list of ignore files.
pub open spec fn watches_for(
    repo: Seq<u8>,
    files: Seq<Seq<u8>>,
    existing: path_set::PathMap,
) -> path_set::PathMap
    decreases files.len(),
{
    if files.len() == 0 {
        Map::empty()
    } else {
        let before = watches_for(repo, files.drop_last(), existing);
        match watch_for(repo, files.last(), existing) {
            Some(path) => path_set::with_path(before, path),
            None => before,
        }
    }
}

/// The paths to watch for the ignore files of a project.
pub open spec fn wanted(
    repo: Seq<u8>,
    ignore_files: path_set::PathMap,
    existing: path_set::PathMap,
) -> path_set::PathMap {
    watches_for(repo, path_set::ascending(ignore_files), existing)
}

/// The first members of a set, in ascending order.
pub open spec fn first_of(map: path_set::PathMap, n: nat) -> Seq<Seq<u8>> {
    let list = path_set::ascending(map);
    if n < list.len() {
        list.take(n as int)
    } else {
        list
    }
}

/// The set with each path in a list.
pub open spec fn with_paths(map: path_set::PathMap, list: Seq<Seq<u8>>) -> path_set::PathMap
    decreases list.len(),
{
    if list.len() == 0 {
        map
    } else {
        path_set::with_path(with_paths(map, list.drop_last()), list.last())
    }
}

/// The paths that are watched once those to give up were given up and the first
/// of those to take up were taken up.
pub open spec fn rewatched(
    watched: path_set::PathMap,
    unwatch: path_set::PathMap,
    watch: path_set::PathMap,
    n: nat,
) -> path_set::PathMap {
    with_paths(watched.remove_keys(unwatch.dom()), first_of(watch, n))
}

/// How to get from the paths that are watched to those that should be.
#[derive(Debug)]
pub struct AuxPlan {
    /// The paths to give up.
    pub unwatch: PathSet,
    /// The paths to take up, in this order.
    pub watch: PathSet,
}

/// Plans which paths to watch outside the repository, given which of the ignore
/// files exist and which paths are watched.
pub fn refresh_aux_watches(
    state: &TrackerState,
    existing: &PathSet,
    aux_watches: &PathSet,
) -> (plan: AuxPlan)
    ensures
        plan.unwatch@ == aux_watches@.remove_keys(
            wanted(state@.repo, state@.ignore_files, existing@).dom(),
        ),
        plan.watch@ == wanted(state@.repo, state@.ignore_files, existing@).remove_keys(
            aux_watches@.dom(),
        ),
{
    let mut keep: PathSet = PathSet::new();
    let n: usize = state.ignore_files.len();
    let ghost files = path_set::ascending(state@.ignore_files);
    let mut i: usize = 0;
    while i < n
        invariant
            i <= n,
            n == files.len(),
            files == state.ignore_files.list(),
            keep@ == watches_for(state@.repo, files.take(i as int), existing@),
        decreases n - i,
    {
        let ignore_file: &AbsPath = state.ignore_files.path_at(i);
        proof {
            assert(files.take(i + 1).drop_last() == files.take(i as int));
            assert(files.take(i + 1).last() == ignore_file@);
        }
        let repo: &AbsDirPath = state.project_path.repo_path();
        if !repo.is_or_contains(ignore_file) {
            if existing.contains(ignore_file) {
                let fresh: bool = keep.insert(ignore_file.clone());
            } else {
                match ignore_file.parent() {
                    Some(parent) => {
                        let fresh: bool = keep.insert(parent.to_abs_path());
                    },
                    None => {},
                }
            }
        }
        i = i + 1;
    }
    assert(files.take(i as int) == files);
    let none: PathSet = PathSet::new();
    let unwatch: PathSet = aux_watches.without(&keep, &none);
    let watch: PathSet = keep.without(aux_watches, &none);
    proof {
        assert(keep@.dom().union(none@.dom()) =~= keep@.dom());
        assert(aux_watches@.dom().union(none@.dom()) =~= aux_watches@.dom());
    }
    AuxPlan { unwatch, watch }
}

/// The next path to take up, after the first `taken` ones: none where one of them
/// failed, or where all were taken up.
pub fn next_watch(plan: &AuxPlan, taken: usize, failed: bool) -> (res: Option<&AbsPath>)
    ensures
        match res {
            Some(path) => {
                &&& !failed
                &&& taken < path_set::ascending(plan.watch@).len()
                &&& path@ == path_set::ascending(plan.watch@)[taken as int]
            },
            None => failed || taken >= path_set::ascending(plan.watch@).len(),
        },
{
    if !failed && taken < plan.watch.len() {
        Some(plan.watch.path_at(taken))
    } else {
        None
    }
}

/// Notes what came of a plan: every path to give up was given up, and the first
/// `taken` paths to take up were taken up.
pub fn commit_aux_watches(aux_watches: &mut PathSet, plan: &AuxPlan, taken: usize)
    ensures
        final(aux_watches)@ == rewatched(
            old(aux_watches)@,
            plan.unwatch@,
            plan.watch@,
            taken as nat,
        ),
{
    let ghost before = aux_watches@;
    let none: PathSet = PathSet::new();
    let mut rest: PathSet = aux_watches.without(&plan.unwatch, &none);
    proof {
        assert(plan.unwatch@.dom().union(none@.dom()) =~= plan.unwatch@.dom());
    }
    let ghost start = rest@;
    let all: usize = plan.watch.len();
    let n: usize = if taken < all {
        taken
    } else {
        all
    };
    let ghost list = first_of(plan.watch@, taken as nat);
    assert(list =~= plan.watch.list().take(n as int));
    let mut i: usize = 0;
    while i < n
        invariant
            i <= n,
            n == list.len(),
            n <= plan.watch.list().len(),
            list == plan.watch.list().take(n as int),
            rest@ == with_paths(start, list.take(i as int)),
        decreases n - i,
    {
        let path: &AbsPath = plan.watch.path_at(i);
        proof {
            assert(list.take(i + 1).drop_last() == list.take(i as int));
            assert(list.take(i + 1).last() == path@);
        }
        let fresh: bool = rest.insert(path.clone());
        i = i + 1;
    }
    assert(list.take(i as int) == list);
    *aux_watches = rest;
}

} // verus!
