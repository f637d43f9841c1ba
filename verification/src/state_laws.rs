//! What a tracker knows: what a scan finds, and which directories are up to date.

use vstd::prelude::*;

use crate::laws;
use crate::path;
use crate::path_laws;
use crate::path_set;
use crate::readiness;
use crate::readiness::SegmentReadiness;
use crate::rules;
use crate::state;
use crate::text;
use crate::track;

verus! {

/// A candidate is resolved to a path with the given components that is tracked.
pub open spec fn is_found(
    cwd: Seq<u8>,
    verdicts: Map<Seq<u8>, rules::RuleVerdict>,
    only_source: bool,
    current_dir: Option<Seq<u8>>,
    candidate: rules::ProbedView,
    key: Seq<Seq<u8>>,
) -> bool {
    match path::resolved(candidate.path, current_dir) {
        Some(path) => text::components(path) == key && rules::is_tracked(
            cwd,
            path,
            verdicts,
            candidate.probe,
            only_source,
        ),
        None => false,
    }
}

/// A scan succeeds exactly where every candidate can be resolved, be it tracked or
/// not. Then it finds exactly the candidates that are tracked, each under the text
/// that one of them is resolved to.
pub proof fn scan_finds_the_tracked_candidates(
    cwd: Seq<u8>,
    verdicts: Map<Seq<u8>, rules::RuleVerdict>,
    only_source: bool,
    current_dir: Option<Seq<u8>>,
    candidates: Seq<rules::ProbedView>,
    key: Seq<Seq<u8>>,
)
    ensures
        ({
            let found = state::scanned(cwd, verdicts, only_source, current_dir, candidates);
            &&& found is Some == forall|i: int|
                0 <= i < candidates.len() ==> path::resolved(
                    (#[trigger] candidates[i]).path,
                    current_dir,
                ) is Some
            &&& found is Some ==> found->0.contains_key(key) == exists|i: int|
                0 <= i < candidates.len() && is_found(
                    cwd,
                    verdicts,
                    only_source,
                    current_dir,
                    #[trigger] candidates[i],
                    key,
                )
            &&& found is Some && found->0.contains_key(key) ==> exists|i: int|
                0 <= i < candidates.len() && path::resolved(
                    (#[trigger] candidates[i]).path,
                    current_dir,
                ) == Some(found->0[key]) && text::components(found->0[key]) == key
        }),
    decreases candidates.len(),
{
    if candidates.len() > 0 {
        let rest = candidates.drop_last();
        let last = candidates.last();
        scan_finds_the_tracked_candidates(cwd, verdicts, only_source, current_dir, rest, key);
        let before = state::scanned(cwd, verdicts, only_source, current_dir, rest);
        let found = state::scanned(cwd, verdicts, only_source, current_dir, candidates);
        assert(candidates[candidates.len() - 1] == last);
        assert(forall|i: int| 0 <= i < rest.len() ==> #[trigger] rest[i] == candidates[i]);
        assert(forall|i: int| 0 <= i < rest.len() ==> #[trigger] candidates[i] == rest[i]);
        if found is Some {
            assert(before is Some);
            assert(path::resolved(last.path, current_dir) is Some);
        }
        if before is None {
            let i = choose|i: int|
                0 <= i < rest.len() && path::resolved((#[trigger] rest[i]).path, current_dir) is None;
            assert(candidates[i] == rest[i]);
        }
        if found is Some && found->0.contains_key(key) {
            if before->0.contains_key(key) {
                let i = choose|i: int|
                    0 <= i < rest.len() && path::resolved((#[trigger] rest[i]).path, current_dir)
                        == Some(before->0[key]) && text::components(before->0[key]) == key;
                assert(candidates[i] == rest[i]);
                let k = choose|k: int|
                    0 <= k < rest.len() && is_found(
                        cwd,
                        verdicts,
                        only_source,
                        current_dir,
                        #[trigger] rest[k],
                        key,
                    );
                assert(candidates[k] == rest[k]);
            }
        }
    }
}

/// The ignore files of a list are collected exactly where every one can be resolved,
/// and then they are all there and nothing else is.
pub proof fn collected_files_are_exact(
    paths: Seq<Seq<u8>>,
    current_dir: Option<Seq<u8>>,
    key: Seq<Seq<u8>>,
)
    ensures
        ({
            let set = state::resolved_set(paths, current_dir);
            &&& set is Some == forall|i: int|
                0 <= i < paths.len() ==> path::resolved(#[trigger] paths[i], current_dir) is Some
            &&& set is Some ==> set->0.contains_key(key) == exists|i: int|
                0 <= i < paths.len() && text::components(
                    path::resolved(#[trigger] paths[i], current_dir)->0,
                ) == key
        }),
    decreases paths.len(),
{
    if paths.len() > 0 {
        let rest = paths.drop_last();
        collected_files_are_exact(rest, current_dir, key);
        let before = state::resolved_set(rest, current_dir);
        assert(paths[paths.len() - 1] == paths.last());
        assert(forall|i: int| 0 <= i < rest.len() ==> #[trigger] rest[i] == paths[i]);
        assert(forall|i: int| 0 <= i < rest.len() ==> #[trigger] paths[i] == rest[i]);
        if before is None {
            let i = choose|i: int|
                0 <= i < rest.len() && path::resolved(#[trigger] rest[i], current_dir) is None;
            assert(paths[i] == rest[i]);
        } else if before->0.contains_key(key) {
            let i = choose|i: int|
                0 <= i < rest.len() && text::components(
                    path::resolved(#[trigger] rest[i], current_dir)->0,
                ) == key;
            assert(paths[i] == rest[i]);
        }
    }
}

/// A new reader is told of each tracked file once, under the text that it has,
/// smaller paths first, and of nothing else.
pub proof fn initial_events_are_exact(files: path_set::PathMap, path: Seq<u8>)
    requires
        path_set::is_listable(files),
    ensures
        ({
            let told = path_set::ascending(files).map_values(
                |path: Seq<u8>| track::EventView::InitialTracked(path),
            );
            &&& told.contains(track::EventView::InitialTracked(path)) == (files.contains_key(
                text::components(path),
            ) && files[text::components(path)] == path)
            &&& forall|i: int| 0 <= i < told.len() ==> #[trigger] told[i] is InitialTracked
        }),
{
    path_laws::listing_is_exact(files, path);
    let list = path_set::ascending(files);
    let told = list.map_values(|path: Seq<u8>| track::EventView::InitialTracked(path));
    let event = track::EventView::InitialTracked(path);
    if list.contains(path) {
        let i = choose|i: int| 0 <= i < list.len() && list[i] == path;
        assert(told[i] == event);
    }
    if told.contains(event) {
        let i = choose|i: int| 0 <= i < told.len() && told[i] == event;
        assert(list[i] == path);
    }
}

// ---------------------------------------------------------------------------
// Directories that are up to date
// ---------------------------------------------------------------------------
/// A directory with the given components is known to be up to date.
pub open spec fn is_up_to_date(
    known: Map<Seq<Seq<u8>>, SegmentReadiness>,
    key: Seq<Seq<u8>>,
) -> bool {
    known.contains_key(key) && known[key] == SegmentReadiness::Ready
}

/// A query about a path needs a rebuild exactly where the path lies in the tracked
/// directory and one of the directories from there on down to the path, its parent
/// included, is not known to be up to date.
pub proof fn query_needs_rebuild_by_its_directories(model: state::TrackerModel, path: Seq<u8>)
    requires
        text::is_absolute(model.cwd),
        text::is_absolute(path),
    ensures
        state::needs_rebuild(model, path) == (path::is_within(path, model.cwd) && exists|n: int|
            text::components(model.cwd).len() <= n < text::components(path).len()
                && !is_up_to_date(model.readiness, #[trigger] text::components(path).take(n))),
{
    laws::segments_lead_to_path(model.cwd, path);
    let dirs = path::dir_segments(model.cwd, path);
    let c = text::components(model.cwd);
    let p = text::components(path);
    if state::needs_rebuild(model, path) {
        let i = choose|i: int|
            0 <= i < dirs.len() && !state::is_ready(model.readiness, #[trigger] dirs[i]);
        assert(text::components(dirs[i]) == p.take(c.len() + i));
        assert(!is_up_to_date(model.readiness, p.take(c.len() + i)));
    }
    if path::is_within(path, model.cwd) && exists|n: int|
        c.len() <= n < p.len() && !is_up_to_date(model.readiness, #[trigger] p.take(n)) {
        let n = choose|n: int|
            c.len() <= n < p.len() && !is_up_to_date(model.readiness, #[trigger] p.take(n));
        let i = n - c.len();
        assert(text::components(dirs[i]) == p.take(c.len() + i));
        assert(!state::is_ready(model.readiness, dirs[i]));
    }
}

/// Marking the way to a path puts exactly the directories from the tracked directory
/// down to the path's parent up to date, and leaves the others as they are.
pub proof fn marking_is_exact(model: state::TrackerModel, path: Seq<u8>, key: Seq<Seq<u8>>)
    requires
        text::is_absolute(model.cwd),
        text::is_absolute(path),
    ensures
        ({
            let after = state::with_ready(
                model.readiness,
                path::dir_segments(model.cwd, path),
            );
            let on_the_way = path::is_within(path, model.cwd) && text::components(
                model.cwd,
            ).is_prefix_of(key) && key.is_prefix_of(text::components(path)) && key
                != text::components(path);
            &&& on_the_way ==> is_up_to_date(after, key)
            &&& !on_the_way ==> after.contains_key(key) == model.readiness.contains_key(key)
            &&& !on_the_way && after.contains_key(key) ==> after[key] == model.readiness[key]
        }),
{
    laws::segments_lead_to_path(model.cwd, path);
    let dirs = path::dir_segments(model.cwd, path);
    let c = text::components(model.cwd);
    let p = text::components(path);
    let after = state::with_ready(model.readiness, dirs);
    if path::is_within(path, model.cwd) && c.is_prefix_of(key) && key.is_prefix_of(p) && key != p {
        if key.len() == p.len() {
            assert(p.subrange(0, key.len() as int) =~= p);
        }
        let i = key.len() - c.len();
        assert(p.subrange(0, key.len() as int) =~= p.take(c.len() + i));
        assert(text::components(dirs[i]) == key);
        assert(state::is_segment(dirs, key));
    } else if state::is_segment(dirs, key) {
        let i = choose|i: int| 0 <= i < dirs.len() && text::components(#[trigger] dirs[i]) == key;
        assert(key == p.take(c.len() + i));
        assert(p.subrange(0, key.len() as int) =~= key);
        assert(p.subrange(0, c.len() as int) =~= key.subrange(0, c.len() as int));
        assert(false);
    }
}

/// A change of an ignore file at an absolute path puts a directory out of date: in
/// the repository, that of a Git exclude or config file every directory, that of
/// another file each directory at or below its own; outside, every directory where
/// the rules were read from it, and otherwise none.
pub open spec fn outdates(model: state::TrackerModel, abs: Seq<u8>, key: Seq<Seq<u8>>) -> bool {
    if path::is_within(abs, model.repo) {
        path::names_git_settings(abs) || (text::parent_text(abs) matches Some(dir)
            && text::components(dir).is_prefix_of(key))
    } else {
        model.ignore_files.contains_key(text::components(abs))
    }
}

/// A change of an ignore file puts exactly those known directories out of date that
/// it concerns, and makes none known.
pub proof fn outdating_is_exact(
    model: state::TrackerModel,
    path: Seq<u8>,
    key: Seq<Seq<u8>>,
)
    ensures
        ({
            let after = state::dirtied(model, path);
            &&& after.contains_key(key) == model.readiness.contains_key(key)
            &&& after.contains_key(key) ==> after[key] == (if outdates(
                model,
                text::joined(model.cwd, path),
                key,
            ) {
                SegmentReadiness::Dirty
            } else {
                model.readiness[key]
            })
        }),
{
}

/// Taking over new rules puts every known directory up to date and makes none known.
pub proof fn rebuilding_refreshes_all(
    known: Map<Seq<Seq<u8>>, SegmentReadiness>,
    key: Seq<Seq<u8>>,
)
    ensures
        readiness::set_under(known, None, SegmentReadiness::Ready).contains_key(key)
            == known.contains_key(key),
        known.contains_key(key) ==> is_up_to_date(
            readiness::set_under(known, None, SegmentReadiness::Ready),
            key,
        ),
{
}

/// Setting the state of the directories at or below one concerns exactly those.
pub proof fn setting_below_is_exact(
    known: Map<Seq<Seq<u8>>, SegmentReadiness>,
    dir: Seq<Seq<u8>>,
    new_state: SegmentReadiness,
    key: Seq<Seq<u8>>,
)
    ensures
        readiness::set_under(known, Some(dir), new_state).contains_key(key)
            == known.contains_key(key),
        known.contains_key(key) ==> readiness::set_under(known, Some(dir), new_state)[key] == (
        if key.len() >= dir.len() && key.take(dir.len() as int) == dir {
            new_state
        } else {
            known[key]
        }),
{
    if dir.is_prefix_of(key) {
        assert(key.take(dir.len() as int) =~= key.subrange(0, dir.len() as int));
    }
    if key.len() >= dir.len() && key.take(dir.len() as int) == dir {
        assert(key.subrange(0, dir.len() as int) =~= dir);
    }
}

} // verus!
