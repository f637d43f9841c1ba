//! What holds of a tracker as a whole.

use vstd::prelude::*;

use crate::aux_watch;
use crate::batch;
use crate::events;
use crate::events::{EventKind, ModifyKind, RenameMode};
use crate::path;
use crate::path_set;
use crate::readiness;
use crate::readiness::SegmentReadiness;
use crate::rules;
use crate::state;
use crate::text;
use crate::track;
use crate::tracker;
use crate::tracker::{Action, Input};

verus! {

// ---------------------------------------------------------------------------
// Paths
// ---------------------------------------------------------------------------
/// Every path is within itself.
pub proof fn within_is_reflexive(path: Seq<u8>)
    ensures
        path::is_within(path, path),
{
    let parts = text::components(path);
    assert(parts.subrange(0, parts.len() as int) == parts);
}

/// What is within a directory is within every directory around it.
pub proof fn within_is_transitive(path: Seq<u8>, dir: Seq<u8>, outer: Seq<u8>)
    requires
        path::is_within(path, dir),
        path::is_within(dir, outer),
    ensures
        path::is_within(path, outer),
{
    let p = text::components(path);
    let d = text::components(dir);
    let o = text::components(outer);
    assert(p.subrange(0, o.len() as int) == d.subrange(0, o.len() as int));
}

/// Two paths within each other are equal.
pub proof fn within_is_antisymmetric(a: Seq<u8>, b: Seq<u8>)
    requires
        path::is_within(a, b),
        path::is_within(b, a),
    ensures
        text::components(a) == text::components(b),
{
    let x = text::components(a);
    let y = text::components(b);
    assert(x.subrange(0, x.len() as int) == x);
    assert(y.subrange(0, y.len() as int) == y);
}

/// A relative path, taken from a directory, is within the directory.
pub proof fn relative_path_is_within(dir: Seq<u8>, path: Seq<u8>)
    requires
        text::is_absolute(dir),
        !text::is_absolute(path),
    ensures
        path::is_within(text::joined(dir, path), dir),
{
    text::joined_components(dir, path);
    let d = text::components(dir);
    assert((d + text::body(path)).subrange(0, d.len() as int) == d);
}

/// The directories between the tracked directory and a path within it, by their
/// components: the first is the tracked directory, each next one has one more
/// component of the path, and the last is the path's parent. A path that is not
/// within the tracked directory has none.
pub proof fn segments_lead_to_path(cwd: Seq<u8>, path: Seq<u8>)
    requires
        text::is_absolute(cwd),
        text::is_absolute(path),
    ensures
        path::is_within(path, cwd) ==> {
            &&& path::dir_segments(cwd, path).len() == text::components(path).len()
                - text::components(cwd).len()
            &&& forall|i: int|
                0 <= i < path::dir_segments(cwd, path).len() ==> text::components(
                    #[trigger] path::dir_segments(cwd, path)[i],
                ) == text::components(path).take(text::components(cwd).len() + i)
        },
        !path::is_within(path, cwd) ==> path::dir_segments(cwd, path).len() == 0,
    decreases path.len(),
{
    text::parent_properties(path);
    text::parent_properties(cwd);
    let p = text::components(path);
    let c = text::components(cwd);
    let segments = path::dir_segments(cwd, path);
    match text::parent_text(path) {
        Some(parent) => {
            let q = text::components(parent);
            if path::is_within(parent, cwd) {
                segments_lead_to_path(cwd, parent);
                let inner = path::dir_segments(cwd, parent);
                assert(p.subrange(0, c.len() as int) == q.subrange(0, c.len() as int));
                assert forall|i: int| 0 <= i < segments.len() implies text::components(
                    #[trigger] segments[i],
                ) == p.take(c.len() + i) by {
                    if i < inner.len() {
                        assert(segments[i] == inner[i]);
                        assert(q.take(c.len() + i) == p.take(c.len() + i));
                    } else {
                        assert(segments[i] == parent);
                        assert(p.drop_last() == p.take(c.len() + i));
                    }
                }
            } else if path::is_within(path, cwd) {
                path::parent_is_nearest(path, cwd);
            }
        },
        None => {},
    }
}

// ---------------------------------------------------------------------------
// Events and the tracked files
// ---------------------------------------------------------------------------
/// The events of an outcome tell the tracked files: a reader who knew the files
/// before knows them after.
pub open spec fn tells_files(
    files: path_set::PathMap,
    events: Seq<track::EventView>,
    after: path_set::PathMap,
) -> bool {
    track::replay(files, events) == after
}

proof fn lemma_replay_none(files: path_set::PathMap)
    ensures
        track::replay(files, Seq::empty()) == files,
{
}

proof fn lemma_replay_one(files: path_set::PathMap, event: track::EventView)
    ensures
        track::replay(files, seq![event]) == track::apply(files, event),
{
    track::replay_push(files, Seq::empty(), event);
    assert(Seq::<track::EventView>::empty().push(event) == seq![event]);
}

/// The events of a move tell the tracked files.
pub proof fn rename_tells_files(
    model: state::TrackerModel,
    from: Seq<u8>,
    to: Seq<u8>,
    probe: rules::ProbeView,
)
    ensures
        tells_files(
            model.files,
            events::renamed(model, from, to, probe).events,
            events::renamed(model, from, to, probe).model.files,
        ),
{
    lemma_replay_none(model.files);
    lemma_replay_one(model.files, track::EventView::Moved(from, to));
    lemma_replay_one(model.files, track::EventView::Removed(from));
    lemma_replay_one(model.files, track::EventView::Created(to));
}

/// The events of a change of one path tell the tracked files.
pub proof fn one_change_tells_files(
    model: state::TrackerModel,
    kind: EventKind,
    path: rules::ProbedView,
)
    ensures
        tells_files(
            model.files,
            events::one_processed(model, kind, path).events,
            events::one_processed(model, kind, path).model.files,
        ),
{
    let abs = text::joined(model.cwd, path.path);
    lemma_replay_none(model.files);
    lemma_replay_one(model.files, track::EventView::Removed(abs));
    lemma_replay_one(model.files, track::EventView::Created(abs));
    lemma_replay_one(model.files, track::EventView::Changed(abs));
    if model.pending.len() > 0 {
        rename_tells_files(
            state::TrackerModel { pending: model.pending.drop_first(), ..model },
            model.pending.first(),
            abs,
            path.probe,
        );
    }
}

proof fn lemma_each_tells_files(
    model: state::TrackerModel,
    kind: EventKind,
    paths: Seq<rules::ProbedView>,
)
    ensures
        tells_files(
            model.files,
            events::each_processed(model, kind, paths).events,
            events::each_processed(model, kind, paths).model.files,
        ),
    decreases paths.len(),
{
    lemma_replay_none(model.files);
    if paths.len() > 0 {
        let before = events::each_processed(model, kind, paths.drop_last());
        let last = events::one_processed(before.model, kind, paths.last());
        lemma_each_tells_files(model, kind, paths.drop_last());
        one_change_tells_files(before.model, kind, paths.last());
        track::replay_add(model.files, before.events, last.events);
    }
}

/// The events of a reported change tell the tracked files.
pub proof fn change_tells_files(model: state::TrackerModel, event: events::FsEventView)
    ensures
        tells_files(
            model.files,
            events::processed(model, event).events,
            events::processed(model, event).model.files,
        ),
{
    lemma_replay_none(model.files);
    if events::is_full_move(event) {
        rename_tells_files(
            state::TrackerModel { pending: Seq::empty(), ..model },
            text::joined(model.cwd, event.paths[0].path),
            text::joined(model.cwd, event.paths[1].path),
            event.paths[1].probe,
        );
    } else {
        lemma_each_tells_files(model, event.kind, event.paths);
    }
}

/// The events of giving up on pending moves tell the tracked files, and no move
/// is pending afterwards.
pub proof fn flush_tells_files(model: state::TrackerModel)
    ensures
        tells_files(
            model.files,
            events::flushed(model).events,
            events::flushed(model).model.files,
        ),
        events::flushed(model).model.pending.len() == 0,
    decreases model.pending.len(),
{
    lemma_replay_none(model.files);
    if model.pending.len() > 0 {
        let path = model.pending.first();
        let next = state::TrackerModel {
            pending: model.pending.drop_first(),
            files: model.files.remove(text::components(path)),
            ..model
        };
        flush_tells_files(next);
        let first = seq![track::EventView::Removed(path)];
        lemma_replay_one(model.files, track::EventView::Removed(path));
        track::replay_add(model.files, first, events::flushed(next).events);
        if !path_set::has_path(model.files, path) {
            assert(next.files =~= model.files);
        }
    }
}

proof fn lemma_noting_keeps_files(batch: batch::BatchModel, paths: Seq<rules::ProbedView>)
    ensures
        batch::each_noted(batch, paths).model.files == batch.model.files,
        batch::each_noted(batch, paths).model.pending == batch.model.pending,
        batch::each_noted(batch, paths).model.cwd == batch.model.cwd,
        batch::each_noted(batch, paths).model.repo == batch.model.repo,
        batch::each_noted(batch, paths).events == batch.events,
    decreases paths.len(),
{
    if paths.len() > 0 {
        lemma_noting_keeps_files(batch, paths.drop_last());
    }
}

proof fn lemma_handling_tells_files(
    model: state::TrackerModel,
    list: Seq<events::FsEventView>,
)
    ensures
        tells_files(
            model.files,
            batch::each_handled(model, list).events,
            batch::each_handled(model, list).model.files,
        ),
    decreases list.len(),
{
    lemma_replay_none(model.files);
    if list.len() > 0 {
        let before = batch::each_handled(model, list.drop_last());
        let event = list.last();
        lemma_handling_tells_files(model, list.drop_last());
        if event.kind != EventKind::Access {
            let mid = batch::each_noted(before, event.paths);
            lemma_noting_keeps_files(before, event.paths);
            change_tells_files(mid.model, event);
            track::replay_add(
                model.files,
                before.events,
                events::processed(mid.model, event).events,
            );
        }
    }
}

proof fn lemma_replay_failures(files: path_set::PathMap, messages: Seq<Seq<char>>)
    ensures
        track::replay(
            files,
            messages.map_values(|message: Seq<char>| track::EventView::Error(message)),
        ) == files,
    decreases messages.len(),
{
    let all = messages.map_values(|message: Seq<char>| track::EventView::Error(message));
    if messages.len() > 0 {
        lemma_replay_failures(files, messages.drop_last());
        assert(all.drop_last() == messages.drop_last().map_values(
            |message: Seq<char>| track::EventView::Error(message),
        ));
    }
}

/// The events of a batch tell the tracked files, and no move is pending after a
/// batch of changes.
pub proof fn batch_tells_files(
    model: state::TrackerModel,
    result: Result<Vec<events::FsEvent>, Vec<String>>,
)
    ensures
        tells_files(
            model.files,
            batch::result_handled(model, result).events,
            batch::result_handled(model, result).model.files,
        ),
        result is Ok ==> batch::result_handled(model, result).model.pending.len() == 0,
{
    match result {
        Ok(list) => {
            let views = events::fs_event_views(list@);
            let before = batch::each_handled(model, views);
            lemma_handling_tells_files(model, views);
            flush_tells_files(before.model);
            track::replay_add(model.files, before.events, events::flushed(before.model).events);
        },
        Err(messages) => {
            lemma_replay_failures(model.files, batch::message_views(messages@));
        },
    }
}

spec fn is_listed(list: Seq<Seq<u8>>, key: Seq<Seq<u8>>) -> bool {
    exists|i: int| path_set::is_listed_at(list, key, i)
}

proof fn lemma_listed_last(list: Seq<Seq<u8>>, key: Seq<Seq<u8>>)
    requires
        list.len() > 0,
    ensures
        is_listed(list, key) == (is_listed(list.drop_last(), key) || key == text::components(
            list.last(),
        )),
{
    let rest = list.drop_last();
    if is_listed(list, key) {
        let i = choose|i: int| path_set::is_listed_at(list, key, i);
        if i < rest.len() {
            assert(path_set::is_listed_at(rest, key, i));
        }
    }
    if is_listed(rest, key) {
        let i = choose|i: int| path_set::is_listed_at(rest, key, i);
        assert(path_set::is_listed_at(list, key, i));
    }
    if key == text::components(list.last()) {
        assert(path_set::is_listed_at(list, key, list.len() - 1));
    }
}

proof fn lemma_with_paths(files: path_set::PathMap, list: Seq<Seq<u8>>, key: Seq<Seq<u8>>)
    ensures
        aux_watch::with_paths(files, list).contains_key(key) == (files.contains_key(key)
            || is_listed(list, key)),
        files.contains_key(key) ==> aux_watch::with_paths(files, list)[key] == files[key],
    decreases list.len(),
{
    if list.len() > 0 {
        lemma_with_paths(files, list.drop_last(), key);
        lemma_listed_last(list, key);
    } else {
        assert(!is_listed(list, key));
    }
}

/// A set with each path in a list has exactly its own members and those of the list.
pub proof fn with_paths_is_exact(
    files: path_set::PathMap,
    list: Seq<Seq<u8>>,
    key: Seq<Seq<u8>>,
)
    ensures
        aux_watch::with_paths(files, list).contains_key(key) == (files.contains_key(key)
            || exists|i: int| path_set::is_listed_at(list, key, i)),
{
    lemma_with_paths(files, list, key);
}

/// The set without each path in a list.
spec fn without_paths(files: path_set::PathMap, list: Seq<Seq<u8>>) -> path_set::PathMap
    decreases list.len(),
{
    if list.len() == 0 {
        files
    } else {
        without_paths(files, list.drop_last()).remove(text::components(list.last()))
    }
}

proof fn lemma_without_paths(files: path_set::PathMap, list: Seq<Seq<u8>>, key: Seq<Seq<u8>>)
    ensures
        without_paths(files, list).contains_key(key) == (files.contains_key(key) && !is_listed(
            list,
            key,
        )),
    decreases list.len(),
{
    if list.len() > 0 {
        lemma_without_paths(files, list.drop_last(), key);
        lemma_listed_last(list, key);
    } else {
        assert(!is_listed(list, key));
    }
}

proof fn lemma_replay_initial(files: path_set::PathMap, list: Seq<Seq<u8>>)
    ensures
        track::replay(
            files,
            list.map_values(|path: Seq<u8>| track::EventView::InitialTracked(path)),
        ) == aux_watch::with_paths(files, list),
    decreases list.len(),
{
    let all = list.map_values(|path: Seq<u8>| track::EventView::InitialTracked(path));
    if list.len() > 0 {
        lemma_replay_initial(files, list.drop_last());
        assert(all.drop_last() == list.drop_last().map_values(
            |path: Seq<u8>| track::EventView::InitialTracked(path),
        ));
    }
}

proof fn lemma_replay_additions(files: path_set::PathMap, list: Seq<Seq<u8>>)
    ensures
        track::replay(
            files,
            list.map_values(|path: Seq<u8>| track::EventView::NowTracked(path)),
        ) == aux_watch::with_paths(files, list),
    decreases list.len(),
{
    let all = list.map_values(|path: Seq<u8>| track::EventView::NowTracked(path));
    if list.len() > 0 {
        lemma_replay_additions(files, list.drop_last());
        assert(all.drop_last() == list.drop_last().map_values(
            |path: Seq<u8>| track::EventView::NowTracked(path),
        ));
    }
}

proof fn lemma_replay_removals(files: path_set::PathMap, list: Seq<Seq<u8>>)
    ensures
        track::replay(
            files,
            list.map_values(|path: Seq<u8>| track::EventView::Untracked(path)),
        ) == without_paths(files, list),
    decreases list.len(),
{
    let all = list.map_values(|path: Seq<u8>| track::EventView::Untracked(path));
    if list.len() > 0 {
        lemma_replay_removals(files, list.drop_last());
        assert(all.drop_last() == list.drop_last().map_values(
            |path: Seq<u8>| track::EventView::Untracked(path),
        ));
    }
}

/// The initial events tell the tracked files to a reader who knows of none.
pub proof fn initial_events_tell_files(files: path_set::PathMap)
    requires
        path_set::is_listable(files),
    ensures
        tells_files(
            Map::empty(),
            path_set::ascending(files).map_values(
                |path: Seq<u8>| track::EventView::InitialTracked(path),
            ),
            files,
        ),
{
    let list = path_set::ascending(files);
    let none = Map::<Seq<Seq<u8>>, Seq<u8>>::empty();
    path_set::ascending_lists(files);
    lemma_replay_initial(none, list);
    lemma_listed_texts(list, list.len() as int);
    assert(list.take(list.len() as int) == list);
    let after = aux_watch::with_paths(none, list);
    assert forall|key: Seq<Seq<u8>>| after.contains_key(key) == files.contains_key(key) by {
        lemma_with_paths(none, list, key);
    }
    assert forall|key: Seq<Seq<u8>>| #[trigger] after.contains_key(key) implies after[key]
        == files[key] by {
        let i = choose|i: int| path_set::is_listed_at(list, key, i);
        assert(path_set::is_listed_at(list, key, i));
    }
    assert(after =~= files);
}

proof fn lemma_listed_texts(list: Seq<Seq<u8>>, n: int)
    requires
        path_set::is_ascending(list),
        0 <= n <= list.len(),
    ensures
        forall|i: int|
            0 <= i < n ==> aux_watch::with_paths(Map::empty(), list.take(n))[text::components(
                #[trigger] list[i],
            )] == list[i],
    decreases n,
{
    let none = Map::<Seq<Seq<u8>>, Seq<u8>>::empty();
    if n > 0 {
        let rest = list.take(n - 1);
        let last = list[n - 1];
        lemma_listed_texts(list, n - 1);
        assert(list.take(n).drop_last() == rest);
        assert forall|i: int| 0 <= i < n implies aux_watch::with_paths(
            none,
            list.take(n),
        )[text::components(#[trigger] list[i])] == list[i] by {
            crate::order::parts_less_irreflexive(text::components(last));
            if i < n - 1 {
                assert(text::components(list[i]) != text::components(last));
            } else {
                lemma_with_paths(none, rest, text::components(last));
                if is_listed(rest, text::components(last)) {
                    let j = choose|j: int|
                        path_set::is_listed_at(rest, text::components(last), j);
                    assert(rest[j] == list[j]);
                }
            }
        }
    }
}

/// The events of a change of the ignore rules tell which files are tracked, but
/// for the paths that are left out: of those nothing is said.
pub proof fn diff_tells_files(
    before: path_set::PathMap,
    after: path_set::PathMap,
    left_out: path_set::PathMap,
    key: Seq<Seq<u8>>,
)
    requires
        path_set::is_listable(before),
        path_set::is_listable(after),
    ensures
        track::replay(before, events::diff_events(before, after, left_out)).contains_key(key) == (
        if left_out.contains_key(key) {
            before.contains_key(key)
        } else {
            after.contains_key(key)
        }),
{
    let now = after.remove_keys(before.dom().union(left_out.dom()));
    let gone = before.remove_keys(after.dom().union(left_out.dom()));
    path_set::remove_keys_is_listable(after, before.dom().union(left_out.dom()));
    path_set::remove_keys_is_listable(before, after.dom().union(left_out.dom()));
    path_set::ascending_lists(now);
    path_set::ascending_lists(gone);
    let a = path_set::ascending(now);
    let b = path_set::ascending(gone);
    let now_events = a.map_values(|path: Seq<u8>| track::EventView::NowTracked(path));
    let gone_events = b.map_values(|path: Seq<u8>| track::EventView::Untracked(path));
    lemma_replay_additions(before, a);
    let mid = track::replay(before, now_events);
    lemma_replay_removals(mid, b);
    track::replay_add(before, now_events, gone_events);
    lemma_with_paths(before, a, key);
    lemma_without_paths(mid, b, key);
    assert(is_listed(a, key) == now.contains_key(key)) by {
        if is_listed(a, key) {
            let i = choose|i: int| path_set::is_listed_at(a, key, i);
            assert(path_set::has_path(now, a[i]));
        }
    }
    assert(is_listed(b, key) == gone.contains_key(key)) by {
        if is_listed(b, key) {
            let i = choose|i: int| path_set::is_listed_at(b, key, i);
            assert(path_set::has_path(gone, b[i]));
        }
    }
}

/// A change of the ignore rules that changes no file's tracking has no events.
pub proof fn same_files_have_no_diff(
    before: path_set::PathMap,
    after: path_set::PathMap,
    left_out: path_set::PathMap,
)
    requires
        before.dom() == after.dom(),
    ensures
        events::diff_events(before, after, left_out).len() == 0,
{
    let none = Map::<Seq<Seq<u8>>, Seq<u8>>::empty();
    assert(after.remove_keys(before.dom().union(left_out.dom())) =~= none);
    assert(before.remove_keys(after.dom().union(left_out.dom())) =~= none);
    path_set::empty_is_listable();
    path_set::ascending_lists(none);
    let list = path_set::ascending(none);
    if list.len() > 0 {
        assert(path_set::has_path(none, list[0]));
    }
}

/// A move that is reported in two parts is a move: where no other move is
/// pending and the file is tracked, the departure followed by the arrival leads
/// where the full move leads, with the same events.
pub proof fn split_move_is_full_move(
    model: state::TrackerModel,
    from: rules::ProbedView,
    to: rules::ProbedView,
)
    requires
        model.pending.len() == 0,
        path_set::has_path(model.files, text::joined(model.cwd, from.path)),
        path::is_within(text::joined(model.cwd, from.path), model.repo),
        path::is_within(text::joined(model.cwd, to.path), model.repo),
    ensures
        ({
            let away = events::processed(
                model,
                events::FsEventView {
                    kind: EventKind::Modify(ModifyKind::Name(RenameMode::From)),
                    paths: seq![from],
                },
            );
            let arrived = events::processed(
                away.model,
                events::FsEventView {
                    kind: EventKind::Modify(ModifyKind::Name(RenameMode::To)),
                    paths: seq![to],
                },
            );
            let full = events::processed(
                model,
                events::FsEventView {
                    kind: EventKind::Modify(ModifyKind::Name(RenameMode::Both)),
                    paths: seq![from, to],
                },
            );
            &&& away.events.len() == 0
            &&& away.model.files == model.files
            &&& arrived.events == full.events
            &&& arrived.model == full.model
        }),
{
    let kind_from = EventKind::Modify(ModifyKind::Name(RenameMode::From));
    let kind_to = EventKind::Modify(ModifyKind::Name(RenameMode::To));
    let none = Seq::<rules::ProbedView>::empty();
    let a = text::joined(model.cwd, from.path);
    assert(seq![from].drop_last() == none);
    assert(seq![to].drop_last() == none);
    let waiting = state::TrackerModel { pending: model.pending.push(a), ..model };
    assert(events::each_processed(model, kind_from, none) == events::unchanged(model));
    assert(events::each_processed(model, kind_from, seq![from]).model == waiting);
    assert(events::each_processed(waiting, kind_to, none) == events::unchanged(waiting));
    assert(waiting.pending.drop_first() =~= Seq::<Seq<u8>>::empty());
    let full = events::renamed(
        state::TrackerModel { pending: Seq::empty(), ..model },
        a,
        text::joined(model.cwd, to.path),
        to.probe,
    );
    assert(Seq::<track::EventView>::empty() + full.events =~= full.events);
}

/// A tracked file that is moved away and back, over a path that was free, is
/// where it was: the same files are tracked.
pub proof fn move_and_back_restores(
    model: state::TrackerModel,
    a: Seq<u8>,
    b: Seq<u8>,
    at_a: rules::ProbeView,
    at_b: rules::ProbeView,
)
    requires
        path_set::has_path(model.files, a),
        !path_set::has_path(model.files, b),
        state::tracks(model, a, at_a),
        state::tracks(model, b, at_b),
    ensures
        ({
            let there = events::renamed(model, a, b, at_b);
            let back = events::renamed(there.model, b, a, at_a);
            &&& there.events == seq![track::EventView::Moved(a, b)]
            &&& back.events == seq![track::EventView::Moved(b, a)]
            &&& back.model.files.dom() == model.files.dom()
        }),
{
    let there = events::renamed(model, a, b, at_b);
    let back = events::renamed(there.model, b, a, at_a);
    assert(back.model.files.dom() =~= model.files.dom());
}

// ---------------------------------------------------------------------------
// Directories that are up to date
// ---------------------------------------------------------------------------
/// Once the way to a path is marked up to date, a query about the path needs no
/// rebuild.
pub proof fn marked_path_needs_no_rebuild(model: state::TrackerModel, path: Seq<u8>)
    ensures
        !state::needs_rebuild(
            state::TrackerModel {
                readiness: state::with_ready(
                    model.readiness,
                    path::dir_segments(model.cwd, path),
                ),
                ..model
            },
            path,
        ),
{
    let dirs = path::dir_segments(model.cwd, path);
    let known = state::with_ready(model.readiness, dirs);
    assert forall|i: int| 0 <= i < dirs.len() implies state::is_ready(
        known,
        #[trigger] dirs[i],
    ) by {
        assert(state::is_segment(dirs, text::components(dirs[i])));
    }
}

/// Once new rules are taken over, a query needs a rebuild only where a directory
/// on the way to the path is not known.
pub proof fn rebuilt_path_needs_no_rebuild(model: state::TrackerModel, path: Seq<u8>)
    requires
        forall|i: int|
            0 <= i < path::dir_segments(model.cwd, path).len() ==> model.readiness.contains_key(
                text::components(#[trigger] path::dir_segments(model.cwd, path)[i]),
            ),
    ensures
        !state::needs_rebuild(
            state::TrackerModel {
                readiness: readiness::set_under(model.readiness, None, SegmentReadiness::Ready),
                ..model
            },
            path,
        ),
{
    let dirs = path::dir_segments(model.cwd, path);
    let known = readiness::set_under(model.readiness, None, SegmentReadiness::Ready);
    assert forall|i: int| 0 <= i < dirs.len() implies state::is_ready(
        known,
        #[trigger] dirs[i],
    ) by {
        assert(model.readiness.contains_key(text::components(dirs[i])));
    }
}

/// Whether a change of an ignore file puts a directory out of date.
pub open spec fn puts_out_of_date(
    model: state::TrackerModel,
    changed: Seq<u8>,
    dir: Seq<u8>,
) -> bool {
    if path::is_within(changed, model.repo) {
        path::names_git_settings(changed) || (text::parent_text(changed) matches Some(changed_dir)
            && path::is_within(dir, changed_dir))
    } else {
        path_set::has_path(model.ignore_files, changed)
    }
}

/// After a change of an ignore file of the repository, every query about a file
/// in its directory needs a rebuild, and after a change of a Git exclude or config
/// file, or of an ignore file outside the repository, every query about a file in
/// the tracked directory does.
pub proof fn rule_change_needs_rebuild(
    model: state::TrackerModel,
    changed: Seq<u8>,
    path: Seq<u8>,
)
    requires
        text::is_absolute(model.cwd),
        text::is_absolute(path),
        text::parent_text(path) matches Some(dir) && path::is_within(dir, model.cwd)
            && puts_out_of_date(model, text::joined(model.cwd, changed), dir),
    ensures
        state::needs_rebuild(
            state::TrackerModel { readiness: state::dirtied(model, changed), ..model },
            path,
        ),
{
    text::parent_properties(path);
    let dir = text::parent_text(path)->0;
    let dirs = path::dir_segments(model.cwd, path);
    let last = dirs.len() - 1;
    assert(dirs[last] == dir);
    let after = state::TrackerModel { readiness: state::dirtied(model, changed), ..model };
    assert(!state::is_ready(after.readiness, path::dir_segments(after.cwd, path)[last]));
}

// ---------------------------------------------------------------------------
// Which files can be tracked
// ---------------------------------------------------------------------------
/// Tracking source files only tracks no file that is not tracked otherwise.
pub proof fn source_mode_only_narrows(
    cwd: Seq<u8>,
    path: Seq<u8>,
    verdicts: Map<Seq<u8>, rules::RuleVerdict>,
    probe: rules::ProbeView,
)
    ensures
        rules::is_tracked(cwd, path, verdicts, probe, true) == (rules::is_tracked(
            cwd,
            path,
            verdicts,
            probe,
            false,
        ) && probe.is_source),
{
}

/// The scan finds exactly the candidates that are tracked.
pub proof fn scan_is_exact(
    cwd: Seq<u8>,
    verdicts: Map<Seq<u8>, rules::RuleVerdict>,
    only_source: bool,
    current_dir: Option<Seq<u8>>,
    candidates: Seq<rules::ProbedView>,
    key: Seq<Seq<u8>>,
)
    requires
        state::scanned(cwd, verdicts, only_source, current_dir, candidates) is Some,
    ensures
        state::scanned(cwd, verdicts, only_source, current_dir, candidates)->0.contains_key(key)
            == exists|i: int|
            0 <= i < candidates.len() && is_hit(
                cwd,
                verdicts,
                only_source,
                current_dir,
                #[trigger] candidates[i],
                key,
            ),
    decreases candidates.len(),
{
    let files = state::scanned(cwd, verdicts, only_source, current_dir, candidates)->0;
    if candidates.len() > 0 {
        let rest = candidates.drop_last();
        scan_is_exact(cwd, verdicts, only_source, current_dir, rest, key);
        let before = state::scanned(cwd, verdicts, only_source, current_dir, rest)->0;
        if before.contains_key(key) {
            let i = choose|i: int|
                0 <= i < rest.len() && is_hit(
                    cwd,
                    verdicts,
                    only_source,
                    current_dir,
                    #[trigger] rest[i],
                    key,
                );
            assert(candidates[i] == rest[i]);
        }
        if exists|i: int|
            0 <= i < candidates.len() && is_hit(
                cwd,
                verdicts,
                only_source,
                current_dir,
                #[trigger] candidates[i],
                key,
            ) {
            let i = choose|i: int|
                0 <= i < candidates.len() && is_hit(
                    cwd,
                    verdicts,
                    only_source,
                    current_dir,
                    #[trigger] candidates[i],
                    key,
                );
            if i < rest.len() {
                assert(rest[i] == candidates[i]);
            }
        }
        assert(candidates[candidates.len() - 1] == candidates.last());
    }
}

/// A candidate is tracked and has the given components.
pub open spec fn is_hit(
    cwd: Seq<u8>,
    verdicts: Map<Seq<u8>, rules::RuleVerdict>,
    only_source: bool,
    current_dir: Option<Seq<u8>>,
    candidate: rules::ProbedView,
    key: Seq<Seq<u8>>,
) -> bool {
    path::resolved(candidate.path, current_dir) matches Some(path) && text::components(path) == key
        && rules::is_tracked(cwd, path, verdicts, candidate.probe, only_source)
}

/// Every file in a set lies within the tracked directory, holds no data of a
/// version control system, and can be listed.
pub open spec fn is_confined(cwd: Seq<u8>, files: path_set::PathMap) -> bool {
    &&& path_set::is_listable(files)
    &&& forall|key: Seq<Seq<u8>>| #[trigger] files.contains_key(key) ==> may_be_tracked(cwd, key)
}

/// A path with the given components lies within the tracked directory and holds
/// no data of a version control system.
pub open spec fn may_be_tracked(cwd: Seq<u8>, key: Seq<Seq<u8>>) -> bool {
    &&& text::components(cwd).is_prefix_of(key)
    &&& forall|i: int| 0 <= i < key.len() ==> !path::is_scm_marker(#[trigger] key[i])
}

/// The files that a scan finds are confined to the project.
pub proof fn scan_is_confined(
    cwd: Seq<u8>,
    verdicts: Map<Seq<u8>, rules::RuleVerdict>,
    only_source: bool,
    current_dir: Option<Seq<u8>>,
    candidates: Seq<rules::ProbedView>,
)
    ensures
        state::scanned(cwd, verdicts, only_source, current_dir, candidates) matches Some(files)
            ==> is_confined(cwd, files),
    decreases candidates.len(),
{
    path_set::empty_is_listable();
    if candidates.len() > 0 {
        let rest = candidates.drop_last();
        scan_is_confined(cwd, verdicts, only_source, current_dir, rest);
        match (
            state::scanned(cwd, verdicts, only_source, current_dir, rest),
            path::resolved(candidates.last().path, current_dir),
        ) {
            (Some(files), Some(path)) => {
                path_set::with_path_is_listable(files, path);
            },
            _ => {},
        }
    }
}

/// The model is of the same project under the same rules.
pub open spec fn is_same_project(a: state::TrackerModel, b: state::TrackerModel) -> bool {
    &&& a.cwd == b.cwd
    &&& a.repo == b.repo
    &&& a.options == b.options
    &&& a.ignore_filter == b.ignore_filter
    &&& a.ignore_files == b.ignore_files
}

proof fn lemma_rename_confined(
    model: state::TrackerModel,
    from: Seq<u8>,
    to: Seq<u8>,
    probe: rules::ProbeView,
)
    requires
        is_confined(model.cwd, model.files),
    ensures
        is_confined(model.cwd, events::renamed(model, from, to, probe).model.files),
{
    let left = model.files.remove(text::components(from));
    path_set::remove_is_listable(model.files, text::components(from));
    path_set::with_path_is_listable(left, to);
    path_set::with_path_is_listable(model.files, to);
}

proof fn lemma_one_confined(
    model: state::TrackerModel,
    kind: EventKind,
    path: rules::ProbedView,
)
    requires
        is_confined(model.cwd, model.files),
    ensures
        is_confined(model.cwd, events::one_processed(model, kind, path).model.files),
{
    let abs = text::joined(model.cwd, path.path);
    path_set::remove_is_listable(model.files, text::components(abs));
    path_set::with_path_is_listable(model.files, abs);
    if model.pending.len() > 0 {
        lemma_rename_confined(
            state::TrackerModel { pending: model.pending.drop_first(), ..model },
            model.pending.first(),
            abs,
            path.probe,
        );
    }
}

proof fn lemma_each_confined(
    model: state::TrackerModel,
    kind: EventKind,
    paths: Seq<rules::ProbedView>,
)
    requires
        is_confined(model.cwd, model.files),
    ensures
        is_confined(model.cwd, events::each_processed(model, kind, paths).model.files),
    decreases paths.len(),
{
    if paths.len() > 0 {
        lemma_each_confined(model, kind, paths.drop_last());
        lemma_each_keeps_project(model, kind, paths.drop_last());
        let before = events::each_processed(model, kind, paths.drop_last());
        lemma_one_confined(before.model, kind, paths.last());
    }
}

/// A reported change leaves the tracked files confined to the project.
pub proof fn change_stays_confined(model: state::TrackerModel, event: events::FsEventView)
    requires
        is_confined(model.cwd, model.files),
    ensures
        is_confined(model.cwd, events::processed(model, event).model.files),
        is_same_project(events::processed(model, event).model, model),
{
    lemma_following_keeps_project(model, event);
    if events::is_full_move(event) {
        lemma_rename_confined(
            state::TrackerModel { pending: Seq::empty(), ..model },
            text::joined(model.cwd, event.paths[0].path),
            text::joined(model.cwd, event.paths[1].path),
            event.paths[1].probe,
        );
    } else {
        lemma_each_confined(model, event.kind, event.paths);
    }
}

proof fn lemma_flush_confined(model: state::TrackerModel)
    requires
        is_confined(model.cwd, model.files),
    ensures
        is_confined(model.cwd, events::flushed(model).model.files),
    decreases model.pending.len(),
{
    if model.pending.len() > 0 {
        let path = model.pending.first();
        path_set::remove_is_listable(model.files, text::components(path));
        lemma_flush_confined(
            state::TrackerModel {
                pending: model.pending.drop_first(),
                files: model.files.remove(text::components(path)),
                ..model
            },
        );
    }
}

proof fn lemma_noting_keeps_project(batch: batch::BatchModel, paths: Seq<rules::ProbedView>)
    ensures
        is_same_project(batch::each_noted(batch, paths).model, batch.model),
    decreases paths.len(),
{
    if paths.len() > 0 {
        lemma_noting_keeps_project(batch, paths.drop_last());
    }
}

proof fn lemma_handling_confined(model: state::TrackerModel, list: Seq<events::FsEventView>)
    requires
        is_confined(model.cwd, model.files),
    ensures
        is_confined(model.cwd, batch::each_handled(model, list).model.files),
    decreases list.len(),
{
    if list.len() > 0 {
        let before = batch::each_handled(model, list.drop_last());
        let event = list.last();
        lemma_handling_confined(model, list.drop_last());
        lemma_handling_keeps_project(model, list.drop_last());
        if event.kind != EventKind::Access {
            let mid = batch::each_noted(before, event.paths);
            lemma_noting_keeps_files(before, event.paths);
            lemma_noting_keeps_project(before, event.paths);
            change_stays_confined(mid.model, event);
        }
    }
}

/// A batch leaves the tracked files confined to the project.
pub proof fn batch_stays_confined(
    model: state::TrackerModel,
    result: Result<Vec<events::FsEvent>, Vec<String>>,
)
    requires
        is_confined(model.cwd, model.files),
    ensures
        is_confined(model.cwd, batch::result_handled(model, result).model.files),
        is_same_project(batch::result_handled(model, result).model, model),
{
    match result {
        Ok(list) => {
            let views = events::fs_event_views(list@);
            lemma_handling_confined(model, views);
            lemma_handling_keeps_project(model, views);
            lemma_flush_confined(batch::each_handled(model, views).model);
            lemma_flush_keeps_project(batch::each_handled(model, views).model);
        },
        Err(messages) => {},
    }
}

// ---------------------------------------------------------------------------
// Changes of the ignore rules
// ---------------------------------------------------------------------------
/// The change of a reported path changes what is ignored.
pub open spec fn path_changes_rules(model: state::TrackerModel, path: rules::ProbedView) -> bool {
    let abs = text::joined(model.cwd, path.path);
    ||| model.ignore_files.contains_key(text::components(abs))
    ||| path::is_within(abs, model.repo) && (path::names_ignore_file(abs)
        || path::names_git_settings(abs))
}

/// A reported change, other than a mere reading, changes what is ignored.
pub open spec fn event_changes_rules(
    model: state::TrackerModel,
    event: events::FsEventView,
) -> bool {
    event.kind != EventKind::Access && exists|i: int|
        0 <= i < event.paths.len() && path_changes_rules(model, #[trigger] event.paths[i])
}

/// A reported path lies in the repository and in the tracked directory, and has
/// the given components.
pub open spec fn path_touches(
    model: state::TrackerModel,
    path: rules::ProbedView,
    key: Seq<Seq<u8>>,
) -> bool {
    let abs = text::joined(model.cwd, path.path);
    path::is_within(abs, model.repo) && path::is_within(abs, model.cwd) && text::components(abs)
        == key
}

/// A reported change, other than a mere reading, touches the path with the
/// given components.
pub open spec fn event_touches(
    model: state::TrackerModel,
    event: events::FsEventView,
    key: Seq<Seq<u8>>,
) -> bool {
    event.kind != EventKind::Access && exists|i: int|
        0 <= i < event.paths.len() && path_touches(model, #[trigger] event.paths[i], key)
}

proof fn lemma_noting_is_exact(
    batch: batch::BatchModel,
    paths: Seq<rules::ProbedView>,
    key: Seq<Seq<u8>>,
)
    ensures
        batch::each_noted(batch, paths).rebuild == (batch.rebuild || exists|i: int|
            0 <= i < paths.len() && path_changes_rules(batch.model, #[trigger] paths[i])),
        batch::each_noted(batch, paths).touched.contains_key(key) == (batch.touched.contains_key(
            key,
        ) || exists|i: int|
            0 <= i < paths.len() && path_touches(batch.model, #[trigger] paths[i], key)),
    decreases paths.len(),
{
    if paths.len() > 0 {
        let rest = paths.drop_last();
        let last = paths.last();
        let before = batch::each_noted(batch, rest);
        lemma_noting_is_exact(batch, rest, key);
        lemma_noting_keeps_project(batch, rest);
        assert(path_changes_rules(before.model, last) == path_changes_rules(batch.model, last));
        assert(paths[paths.len() - 1] == last);
        assert((exists|i: int|
            0 <= i < paths.len() && path_changes_rules(batch.model, #[trigger] paths[i])) == ((
        exists|i: int|
            0 <= i < rest.len() && path_changes_rules(batch.model, #[trigger] rest[i]))
            || path_changes_rules(batch.model, last))) by {
            assert(forall|i: int| 0 <= i < rest.len() ==> #[trigger] rest[i] == paths[i]);
            assert(forall|i: int|
                0 <= i < rest.len() ==> #[trigger] paths[i] == rest[i]);
        }
        assert((exists|i: int|
            0 <= i < paths.len() && path_touches(batch.model, #[trigger] paths[i], key)) == ((
        exists|i: int|
            0 <= i < rest.len() && path_touches(batch.model, #[trigger] rest[i], key))
            || path_touches(batch.model, last, key))) by {
            assert(forall|i: int| 0 <= i < rest.len() ==> #[trigger] rest[i] == paths[i]);
            assert(forall|i: int|
                0 <= i < rest.len() ==> #[trigger] paths[i] == rest[i]);
        }
    }
}

proof fn lemma_following_keeps_project(model: state::TrackerModel, event: events::FsEventView)
    ensures
        is_same_project(events::processed(model, event).model, model),
{
    if !events::is_full_move(event) {
        lemma_each_keeps_project(model, event.kind, event.paths);
    }
}

proof fn lemma_each_keeps_project(
    model: state::TrackerModel,
    kind: EventKind,
    paths: Seq<rules::ProbedView>,
)
    ensures
        is_same_project(events::each_processed(model, kind, paths).model, model),
    decreases paths.len(),
{
    if paths.len() > 0 {
        lemma_each_keeps_project(model, kind, paths.drop_last());
    }
}

proof fn lemma_handling_keeps_project(
    model: state::TrackerModel,
    list: Seq<events::FsEventView>,
)
    ensures
        is_same_project(batch::each_handled(model, list).model, model),
    decreases list.len(),
{
    if list.len() > 0 {
        let before = batch::each_handled(model, list.drop_last());
        let event = list.last();
        lemma_handling_keeps_project(model, list.drop_last());
        lemma_noting_keeps_project(before, event.paths);
        lemma_following_keeps_project(batch::each_noted(before, event.paths).model, event);
    }
}

proof fn lemma_flush_keeps_project(model: state::TrackerModel)
    ensures
        is_same_project(events::flushed(model).model, model),
    decreases model.pending.len(),
{
    if model.pending.len() > 0 {
        lemma_flush_keeps_project(
            state::TrackerModel {
                pending: model.pending.drop_first(),
                files: model.files.remove(text::components(model.pending.first())),
                ..model
            },
        );
    }
}

/// A batch of changes asks for new rules and a new scan exactly where one of its
/// changes changes what is ignored, and its touched paths are exactly the
/// reported ones in the tracked directory. That a path was only read counts for
/// neither.
pub proof fn batch_notes_are_exact(
    model: state::TrackerModel,
    list: Seq<events::FsEventView>,
    key: Seq<Seq<u8>>,
)
    ensures
        batch::batch_handled(model, list).rebuild == exists|i: int|
            0 <= i < list.len() && event_changes_rules(model, #[trigger] list[i]),
        batch::batch_handled(model, list).touched.contains_key(key) == exists|i: int|
            0 <= i < list.len() && event_touches(model, #[trigger] list[i], key),
    decreases list.len(),
{
    if list.len() > 0 {
        let rest = list.drop_last();
        let last = list.last();
        let before = batch::each_handled(model, rest);
        batch_notes_are_exact(model, rest, key);
        lemma_handling_keeps_project(model, rest);
        lemma_noting_is_exact(before, last.paths, key);
        assert(list[list.len() - 1] == last);
        assert(forall|i: int| 0 <= i < rest.len() ==> #[trigger] rest[i] == list[i]);
        assert(forall|i: int| 0 <= i < rest.len() ==> #[trigger] list[i] == rest[i]);
        assert(forall|path: rules::ProbedView|
            path_changes_rules(before.model, path) == #[trigger] path_changes_rules(model, path));
        assert(forall|path: rules::ProbedView|
            path_touches(before.model, path, key) == #[trigger] path_touches(model, path, key));
    }
}

/// On a change of the ignore rules the tracker waits for changes to settle, scans
/// anew, tracks exactly what the new scan finds, and reports the difference to
/// what was tracked, without the paths that the batch itself reported.
pub proof fn rule_change_is_rescanned(
    tracker: tracker::TrackerView,
    list: Vec<events::FsEvent>,
    rebuilt: tracker::Rebuilt,
    outcome: tracker::Refreshed,
)
    requires
        tracker.phase == tracker::PhaseView::Idle,
        exists|i: int|
            0 <= i < list@.len() && event_changes_rules(
                tracker.model,
                #[trigger] events::fs_event_views(list@)[i],
            ),
        tracker::rescanned(tracker.model, rebuilt) is Some,
    ensures
        ({
            let files = tracker::rescanned(tracker.model, rebuilt)->0;
            let touched = batch::batch_handled(
                tracker.model,
                events::fs_event_views(list@),
            ).touched;
            let handled = tracker::stepped(tracker, Input::Batch(Ok(list)));
            let settled = tracker::stepped(handled.tracker, Input::Settled);
            let taken = tracker::stepped(settled.tracker, Input::Rebuilt(rebuilt));
            let done = tracker::stepped(taken.tracker, Input::Refreshed(outcome));
            &&& handled.action == Action::Settle
            &&& settled.action == Action::Rebuild
            &&& settled.events.len() == 0
            &&& taken.action == Action::Refresh
            &&& taken.tracker.model.files == files
            &&& taken.events == events::diff_events(handled.tracker.model.files, files, touched)
            &&& done.action == Action::Wait
            &&& done.tracker.model.files == files
        }),
{
    let views = events::fs_event_views(list@);
    batch_notes_are_exact(tracker.model, views, Seq::empty());
    lemma_handling_keeps_project(tracker.model, views);
    lemma_flush_keeps_project(batch::each_handled(tracker.model, views).model);
    let after = batch::batch_handled(tracker.model, views);
    let files = tracker::rescanned(tracker.model, rebuilt)->0;
    assert(tracker::rescanned(after.model, rebuilt) == Some(files));
    assert(after.rebuild) by {
        let i = choose|i: int|
            0 <= i < list@.len() && event_changes_rules(tracker.model, #[trigger] views[i]);
        assert(event_changes_rules(tracker.model, views[i]));
    }
    lemma_rescan_steps(tracker, list, rebuilt, outcome);
}

proof fn lemma_rescan_steps(
    tracker: tracker::TrackerView,
    list: Vec<events::FsEvent>,
    rebuilt: tracker::Rebuilt,
    outcome: tracker::Refreshed,
)
    requires
        tracker.phase == tracker::PhaseView::Idle,
        batch::batch_handled(tracker.model, events::fs_event_views(list@)).rebuild,
        tracker::rescanned(tracker.model, rebuilt) is Some,
        tracker::rescanned(
            batch::batch_handled(tracker.model, events::fs_event_views(list@)).model,
            rebuilt,
        ) == tracker::rescanned(tracker.model, rebuilt),
    ensures
        ({
            let after = batch::batch_handled(tracker.model, events::fs_event_views(list@));
            let files = tracker::rescanned(tracker.model, rebuilt)->0;
            let handled = tracker::stepped(tracker, Input::Batch(Ok(list)));
            let settled = tracker::stepped(handled.tracker, Input::Settled);
            let taken = tracker::stepped(settled.tracker, Input::Rebuilt(rebuilt));
            let done = tracker::stepped(taken.tracker, Input::Refreshed(outcome));
            &&& handled.action == Action::Settle
            &&& settled.action == Action::Rebuild
            &&& settled.events.len() == 0
            &&& taken.action == Action::Refresh
            &&& taken.tracker.model.files == files
            &&& taken.events == events::diff_events(
                handled.tracker.model.files,
                files,
                after.touched,
            )
            &&& done.action == Action::Wait
            &&& done.tracker.model.files == files
        }),
{
    let after = batch::batch_handled(tracker.model, events::fs_event_views(list@));
    let files = tracker::rescanned(tracker.model, rebuilt)->0;
    let handled = tracker::stepped(tracker, Input::Batch(Ok(list)));
    assert(handled.tracker == tracker::TrackerView {
        model: after.model,
        phase: tracker::PhaseView::BatchSettling(after.touched, None),
        ..tracker
    });
    let settled = tracker::stepped(handled.tracker, Input::Settled);
    assert(settled.tracker == tracker::TrackerView {
        phase: tracker::PhaseView::BatchRebuilding(after.touched, None),
        ..handled.tracker
    });
    let taken = tracker::stepped(settled.tracker, Input::Rebuilt(rebuilt));
    assert(taken.tracker == tracker::TrackerView {
        model: tracker::rebuilt_model(after.model, rebuilt, files),
        phase: tracker::PhaseView::BatchRefreshing(None),
        ..settled.tracker
    });
}

// ---------------------------------------------------------------------------
// A running tracker
// ---------------------------------------------------------------------------
/// Whatever happens to a tracker, the tracked files stay confined to the
/// project, and the project and the settings stay the same.
pub proof fn step_stays_confined(tracker: tracker::TrackerView, input: Input)
    requires
        is_confined(tracker.model.cwd, tracker.model.files),
    ensures
        is_confined(tracker.model.cwd, tracker::stepped(tracker, input).tracker.model.files),
        tracker::stepped(tracker, input).tracker.model.cwd == tracker.model.cwd,
        tracker::stepped(tracker, input).tracker.model.repo == tracker.model.repo,
        tracker::stepped(tracker, input).tracker.model.options == tracker.model.options,
{
    match input {
        Input::Batch(result) => {
            batch_stays_confined(tracker.model, result);
        },
        Input::Rebuilt(rebuilt) => {
            scan_is_confined(
                tracker.model.cwd,
                rules::rule_verdicts(rebuilt.ignore_filter),
                tracker.model.options.only_source,
                tracker::query_text(rebuilt.current_dir),
                rules::probed_views(rebuilt.candidates@),
            );
        },
        _ => {},
    }
}

/// The paths of which a step says nothing: those that a batch reported, while
/// the rules that it changed are taken over.
pub open spec fn is_left_out(tracker: tracker::TrackerView, key: Seq<Seq<u8>>) -> bool {
    match tracker.phase {
        tracker::PhaseView::BatchRebuilding(touched, query) => touched.contains_key(key),
        _ => false,
    }
}

/// The events of every step tell the tracked files: a reader who knew before
/// whether a path is tracked knows it after, but for the paths left out.
pub proof fn step_tells_files(
    tracker: tracker::TrackerView,
    input: Input,
    key: Seq<Seq<u8>>,
)
    requires
        is_confined(tracker.model.cwd, tracker.model.files),
        !is_left_out(tracker, key),
    ensures
        track::replay(
            tracker.model.files,
            tracker::stepped(tracker, input).events,
        ).contains_key(key) == tracker::stepped(tracker, input).tracker.model.files.contains_key(
            key,
        ),
{
    let files = tracker.model.files;
    lemma_replay_none(files);
    step_stays_confined(tracker, input);
    match input {
        Input::Batch(result) => {
            batch_tells_files(tracker.model, result);
        },
        Input::Rebuilt(rebuilt) => {
            let after = tracker::stepped(tracker, input).tracker.model.files;
            match tracker.phase {
                tracker::PhaseView::BatchRebuilding(touched, query) => {
                    diff_tells_files(files, after, touched, key);
                },
                _ => {
                    diff_tells_files(files, after, Map::empty(), key);
                },
            }
            lemma_replay_one(
                files,
                track::EventView::Error("failed to resolve current dir"@),
            );
        },
        Input::RebuildFailed(message) => {
            lemma_replay_one(files, track::EventView::Error(message@));
        },
        Input::Refreshed(outcome) => {
            if outcome.failure is Some {
                lemma_replay_one(files, track::EventView::Error(outcome.failure->0@));
            }
        },
        _ => {},
    }
}

/// No event in the list is of a file that was tracked from the start.
pub open spec fn has_no_initial(list: Seq<track::EventView>) -> bool {
    forall|i: int| 0 <= i < list.len() ==> !(#[trigger] list[i] is InitialTracked)
}

proof fn lemma_no_initial_add(a: Seq<track::EventView>, b: Seq<track::EventView>)
    requires
        has_no_initial(a),
        has_no_initial(b),
    ensures
        has_no_initial(a + b),
{
    assert forall|i: int| 0 <= i < (a + b).len() implies !(#[trigger] (a
        + b)[i] is InitialTracked) by {
        if i < a.len() {
            assert((a + b)[i] == a[i]);
        } else {
            assert((a + b)[i] == b[i - a.len()]);
        }
    }
}

proof fn lemma_each_has_no_initial(
    model: state::TrackerModel,
    kind: EventKind,
    paths: Seq<rules::ProbedView>,
)
    ensures
        has_no_initial(events::each_processed(model, kind, paths).events),
    decreases paths.len(),
{
    if paths.len() > 0 {
        let before = events::each_processed(model, kind, paths.drop_last());
        let last = events::one_processed(before.model, kind, paths.last());
        lemma_each_has_no_initial(model, kind, paths.drop_last());
        assert(has_no_initial(last.events));
        lemma_no_initial_add(before.events, last.events);
    }
}

proof fn lemma_change_has_no_initial(model: state::TrackerModel, event: events::FsEventView)
    ensures
        has_no_initial(events::processed(model, event).events),
{
    if !events::is_full_move(event) {
        lemma_each_has_no_initial(model, event.kind, event.paths);
    }
}

proof fn lemma_flush_has_no_initial(model: state::TrackerModel)
    ensures
        has_no_initial(events::flushed(model).events),
    decreases model.pending.len(),
{
    if model.pending.len() > 0 {
        let path = model.pending.first();
        let next = state::TrackerModel {
            pending: model.pending.drop_first(),
            files: model.files.remove(text::components(path)),
            ..model
        };
        lemma_flush_has_no_initial(next);
        lemma_no_initial_add(
            seq![track::EventView::Removed(path)],
            events::flushed(next).events,
        );
    }
}

proof fn lemma_handling_has_no_initial(
    model: state::TrackerModel,
    list: Seq<events::FsEventView>,
)
    ensures
        has_no_initial(batch::each_handled(model, list).events),
    decreases list.len(),
{
    if list.len() > 0 {
        let before = batch::each_handled(model, list.drop_last());
        let event = list.last();
        lemma_handling_has_no_initial(model, list.drop_last());
        if event.kind != EventKind::Access {
            let mid = batch::each_noted(before, event.paths);
            lemma_noting_keeps_files(before, event.paths);
            lemma_change_has_no_initial(mid.model, event);
            lemma_no_initial_add(before.events, events::processed(mid.model, event).events);
        }
    }
}

proof fn lemma_batch_has_no_initial(
    model: state::TrackerModel,
    result: Result<Vec<events::FsEvent>, Vec<String>>,
)
    ensures
        has_no_initial(batch::result_handled(model, result).events),
{
    if let Ok(list) = result {
        let views = events::fs_event_views(list@);
        let before = batch::each_handled(model, views);
        lemma_handling_has_no_initial(model, views);
        lemma_flush_has_no_initial(before.model);
        lemma_no_initial_add(before.events, events::flushed(before.model).events);
    }
}

proof fn lemma_diff_has_no_initial(
    before: path_set::PathMap,
    after: path_set::PathMap,
    left_out: path_set::PathMap,
)
    ensures
        has_no_initial(events::diff_events(before, after, left_out)),
{
    let now = path_set::ascending(after.remove_keys(before.dom().union(left_out.dom())));
    let gone = path_set::ascending(before.remove_keys(after.dom().union(left_out.dom())));
    lemma_no_initial_add(
        now.map_values(|path: Seq<u8>| track::EventView::NowTracked(path)),
        gone.map_values(|path: Seq<u8>| track::EventView::Untracked(path)),
    );
}

/// The initial events come from the start alone: no step of a running tracker
/// reports one.
pub proof fn step_reports_no_initial(tracker: tracker::TrackerView, input: Input)
    ensures
        has_no_initial(tracker::stepped(tracker, input).events),
{
    match input {
        Input::Batch(result) => {
            lemma_batch_has_no_initial(tracker.model, result);
        },
        Input::Rebuilt(rebuilt) => {
            if tracker::rescanned(tracker.model, rebuilt) is Some {
                let files = tracker::rescanned(tracker.model, rebuilt)->0;
                match tracker.phase {
                    tracker::PhaseView::BatchRebuilding(touched, query) => {
                        lemma_diff_has_no_initial(tracker.model.files, files, touched);
                    },
                    _ => {
                        lemma_diff_has_no_initial(tracker.model.files, files, Map::empty());
                    },
                }
            }
        },
        _ => {},
    }
}

/// A query about a path whose directories are up to date, with no batch waiting,
/// is answered after the settle delay, without an event, by whether the path is
/// among the tracked files.
pub proof fn query_is_answered(
    tracker: tracker::TrackerView,
    query: path::AbsPath,
)
    requires
        tracker.phase == tracker::PhaseView::Idle,
        !state::needs_rebuild(tracker.model, query@),
    ensures
        ({
            let asked = tracker::stepped(tracker, Input::Query(query));
            let settled = tracker::stepped(asked.tracker, Input::Settled);
            let answer = tracker::stepped(settled.tracker, Input::Drained);
            &&& asked.action == Action::Settle
            &&& settled.action == Action::Poll
            &&& answer.action == Action::Answer(path_set::has_path(tracker.model.files, query@))
            &&& asked.events.len() + settled.events.len() + answer.events.len() == 0
            &&& answer.tracker.phase == tracker::PhaseView::Idle
            &&& answer.tracker.model.files == tracker.model.files
        }),
{
}

/// A query that finds a directory on its way out of date is answered from the
/// rebuilt state: by whether the path is among the files of the new scan.
pub proof fn stale_query_is_answered_from_new_scan(
    tracker: tracker::TrackerView,
    path: Seq<u8>,
    rebuilt: tracker::Rebuilt,
    outcome: tracker::Refreshed,
)
    requires
        tracker.phase == tracker::PhaseView::QueryDraining(path),
        state::needs_rebuild(tracker.model, path),
        tracker::rescanned(tracker.model, rebuilt) is Some,
    ensures
        ({
            let files = tracker::rescanned(tracker.model, rebuilt)->0;
            let drained = tracker::stepped(tracker, Input::Drained);
            let taken = tracker::stepped(drained.tracker, Input::Rebuilt(rebuilt));
            let answer = tracker::stepped(taken.tracker, Input::Refreshed(outcome));
            &&& drained.action == Action::Rebuild
            &&& taken.action == Action::Refresh
            &&& taken.events == events::diff_events(tracker.model.files, files, Map::empty())
            &&& answer.action == Action::Answer(path_set::has_path(files, path))
            &&& answer.tracker.phase == tracker::PhaseView::Idle
        }),
{
}

/// A tracker that has stopped does nothing more.
pub proof fn stopped_is_final(tracker: tracker::TrackerView, input: Input)
    requires
        tracker.phase == tracker::PhaseView::Stopped,
    ensures
        tracker::stepped(tracker, input).tracker == tracker,
        tracker::stepped(tracker, input).action == Action::Stop,
        tracker::stepped(tracker, input).events.len() == 0,
{
}

// ---------------------------------------------------------------------------
// Watches outside the repository
// ---------------------------------------------------------------------------
/// Once a plan for the watches outside the repository has succeeded as a whole,
/// exactly the wanted paths are watched, and a new plan has nothing to do.
pub proof fn refreshed_watches_are_wanted(
    watched: path_set::PathMap,
    wanted: path_set::PathMap,
    n: nat,
)
    requires
        path_set::is_listable(watched),
        path_set::is_listable(wanted),
        n >= path_set::ascending(wanted.remove_keys(watched.dom())).len(),
    ensures
        ({
            let after = aux_watch::rewatched(
                watched,
                watched.remove_keys(wanted.dom()),
                wanted.remove_keys(watched.dom()),
                n,
            );
            &&& after.dom() == wanted.dom()
            &&& after.remove_keys(wanted.dom()).dom() == Set::<Seq<Seq<u8>>>::empty()
            &&& wanted.remove_keys(after.dom()).dom() == Set::<Seq<Seq<u8>>>::empty()
        }),
{
    let unwatch = watched.remove_keys(wanted.dom());
    let watch = wanted.remove_keys(watched.dom());
    let kept = watched.remove_keys(unwatch.dom());
    let after = aux_watch::rewatched(watched, unwatch, watch, n);
    path_set::remove_keys_is_listable(wanted, watched.dom());
    path_set::ascending_lists(watch);
    let list = path_set::ascending(watch);
    assert(aux_watch::first_of(watch, n) == list);
    assert forall|key: Seq<Seq<u8>>| after.dom().contains(key) == wanted.dom().contains(key) by {
        lemma_with_paths(kept, list, key);
        if is_listed(list, key) {
            let i = choose|i: int| path_set::is_listed_at(list, key, i);
            assert(path_set::has_path(watch, list[i]));
        }
        if watch.contains_key(key) {
            assert(is_listed(list, key));
        }
    }
    assert(after.dom() =~= wanted.dom());
    assert(after.remove_keys(wanted.dom()).dom() =~= Set::<Seq<Seq<u8>>>::empty());
    assert(wanted.remove_keys(after.dom()).dom() =~= Set::<Seq<Seq<u8>>>::empty());
}

proof fn lemma_watches_are_listable(
    repo: Seq<u8>,
    files: Seq<Seq<u8>>,
    existing: path_set::PathMap,
)
    ensures
        path_set::is_listable(aux_watch::watches_for(repo, files, existing)),
    decreases files.len(),
{
    path_set::empty_is_listable();
    if files.len() > 0 {
        lemma_watches_are_listable(repo, files.drop_last(), existing);
        let before = aux_watch::watches_for(repo, files.drop_last(), existing);
        if let Some(path) = aux_watch::watch_for(repo, files.last(), existing) {
            path_set::with_path_is_listable(before, path);
        }
    }
}

/// A refresh in which every missing watch was taken up leaves the tracker with
/// exactly the watches that its own ignore files ask for.
pub proof fn refresh_watches_what_is_wanted(
    tracker: tracker::TrackerView,
    existing: path_set::PathMap,
    taken: nat,
)
    requires
        path_set::is_listable(tracker.aux_watches),
        taken >= path_set::ascending(
            aux_watch::wanted(
                tracker.model.repo,
                tracker.model.ignore_files,
                existing,
            ).remove_keys(tracker.aux_watches.dom()),
        ).len(),
    ensures
        tracker::refreshed(tracker, existing, taken).aux_watches.dom() == aux_watch::wanted(
            tracker.model.repo,
            tracker.model.ignore_files,
            existing,
        ).dom(),
{
    let files = path_set::ascending(tracker.model.ignore_files);
    let wanted = aux_watch::wanted(tracker.model.repo, tracker.model.ignore_files, existing);
    lemma_watches_are_listable(tracker.model.repo, files, existing);
    refreshed_watches_are_wanted(tracker.aux_watches, wanted, taken);
}

/// The wanted watches, one by one: a path is wanted where it is the watch of
/// some ignore file in the list.
pub proof fn wanted_is_exact(
    repo: Seq<u8>,
    files: Seq<Seq<u8>>,
    existing: path_set::PathMap,
    key: Seq<Seq<u8>>,
)
    ensures
        aux_watch::watches_for(repo, files, existing).contains_key(key) == exists|i: int|
            0 <= i < files.len() && is_watch_of(repo, #[trigger] files[i], existing, key),
    decreases files.len(),
{
    if files.len() > 0 {
        let rest = files.drop_last();
        wanted_is_exact(repo, rest, existing, key);
        if aux_watch::watches_for(repo, rest, existing).contains_key(key) {
            let i = choose|i: int|
                0 <= i < rest.len() && is_watch_of(repo, #[trigger] rest[i], existing, key);
            assert(files[i] == rest[i]);
        }
        if exists|i: int|
            0 <= i < files.len() && is_watch_of(repo, #[trigger] files[i], existing, key) {
            let i = choose|i: int|
                0 <= i < files.len() && is_watch_of(repo, #[trigger] files[i], existing, key);
            if i < rest.len() {
                assert(rest[i] == files[i]);
            }
        }
        assert(files[files.len() - 1] == files.last());
    }
}

/// The path to watch for an ignore file has the given components.
pub open spec fn is_watch_of(
    repo: Seq<u8>,
    file: Seq<u8>,
    existing: path_set::PathMap,
    key: Seq<Seq<u8>>,
) -> bool {
    aux_watch::watch_for(repo, file, existing) matches Some(path) && text::components(path) == key
}

} // verus!
