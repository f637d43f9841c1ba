//! What a reported change does: to the tracked files, to the moves that are
//! pending, and in events.

use vstd::prelude::*;

use crate::events;
use crate::events::{EventKind, ModifyKind, RenameMode};
use crate::order;
use crate::path;
use crate::path_laws;
use crate::path_set;
use crate::rules;
use crate::state;
use crate::text;
use crate::track;

verus! {

/// The rules and settings of a model leave a path to be tracked, in the way in
/// which a scan decides it.
pub open spec fn may_track(
    model: state::TrackerModel,
    path: Seq<u8>,
    probe: rules::ProbeView,
) -> bool {
    rules::is_tracked(
        model.cwd,
        path,
        rules::rule_verdicts(model.ignore_filter),
        probe,
        model.options.only_source,
    )
}

/// The absolute text of a reported path.
pub open spec fn place(model: state::TrackerModel, path: rules::ProbedView) -> Seq<u8> {
    text::joined(model.cwd, path.path)
}

/// A reported path lies in the repository.
pub open spec fn in_repo(model: state::TrackerModel, path: rules::ProbedView) -> bool {
    path::is_within(text::joined(model.cwd, path.path), model.repo)
}

/// A change of one path.
pub open spec fn change_of(kind: EventKind, path: rules::ProbedView) -> events::FsEventView {
    events::FsEventView { kind, paths: seq![path] }
}

/// A path is among the tracked files.
pub open spec fn is_tracked_in(model: state::TrackerModel, path: Seq<u8>) -> bool {
    model.files.contains_key(text::components(path))
}

proof fn lemma_one_path(model: state::TrackerModel, kind: EventKind, path: rules::ProbedView)
    ensures
        events::processed(model, change_of(kind, path)) == events::one_processed(model, kind, path),
{
    let paths = seq![path];
    assert(paths.drop_last() =~= Seq::<rules::ProbedView>::empty());
    assert(events::each_processed(model, kind, paths.drop_last()) == events::unchanged(model));
    let one = events::one_processed(model, kind, path);
    assert(Seq::<track::EventView>::empty() + one.events =~= one.events);
}

// ---------------------------------------------------------------------------
// A change of one path
// ---------------------------------------------------------------------------
/// A change outside the repository changes nothing and is not reported.
pub proof fn change_outside_is_of_no_interest(
    model: state::TrackerModel,
    kind: EventKind,
    path: rules::ProbedView,
)
    requires
        !in_repo(model, path),
    ensures
        events::processed(model, change_of(kind, path)).model == model,
        events::processed(model, change_of(kind, path)).events.len() == 0,
{
    lemma_one_path(model, kind, path);
}

/// A removed file is not tracked any more, and its removal is reported where it was
/// tracked. Nothing else changes.
pub proof fn removal_untracks(model: state::TrackerModel, path: rules::ProbedView)
    requires
        in_repo(model, path),
    ensures
        events::processed(model, change_of(EventKind::Remove, path)).model
            == (state::TrackerModel {
            files: model.files.remove(text::components(place(model, path))),
            ..model
        }),
        events::processed(model, change_of(EventKind::Remove, path)).events == (if is_tracked_in(
            model,
            place(model, path),
        ) {
            seq![track::EventView::Removed(place(model, path))]
        } else {
            Seq::empty()
        }),
{
    lemma_one_path(model, EventKind::Remove, path);
    if !is_tracked_in(model, place(model, path)) {
        assert(model.files.remove(text::components(place(model, path))) =~= model.files);
    }
}

/// A file that appears, by its creation, by a modification while it is not tracked,
/// or by the arrival of a move without a departure, is taken up and reported as
/// created exactly where it may be tracked and is not yet. Nothing else changes.
pub proof fn appearance_tracks(
    model: state::TrackerModel,
    kind: EventKind,
    path: rules::ProbedView,
)
    requires
        in_repo(model, path),
        match kind {
            EventKind::Create => true,
            EventKind::Modify(ModifyKind::Name(RenameMode::To)) => model.pending.len() == 0,
            EventKind::Modify(ModifyKind::Name(RenameMode::From)) => false,
            EventKind::Modify(_) => !is_tracked_in(model, place(model, path)),
            _ => false,
        },
    ensures
        ({
            let abs = place(model, path);
            let after = events::processed(model, change_of(kind, path));
            if may_track(model, abs, path.probe) && !is_tracked_in(model, abs) {
                &&& after.model == state::TrackerModel {
                    files: model.files.insert(text::components(abs), abs),
                    ..model
                }
                &&& after.events == seq![track::EventView::Created(abs)]
            } else {
                &&& after.model == model
                &&& after.events.len() == 0
            }
        }),
{
    lemma_one_path(model, kind, path);
}

/// A modification of a tracked file, of whatever kind but one side of a move, is
/// reported as a change and changes nothing.
pub proof fn modification_is_reported(
    model: state::TrackerModel,
    modify: ModifyKind,
    path: rules::ProbedView,
)
    requires
        in_repo(model, path),
        is_tracked_in(model, place(model, path)),
        modify != ModifyKind::Name(RenameMode::From),
        modify != ModifyKind::Name(RenameMode::To),
    ensures
        events::processed(model, change_of(EventKind::Modify(modify), path)).model == model,
        events::processed(model, change_of(EventKind::Modify(modify), path)).events
            == seq![track::EventView::Changed(place(model, path))],
{
    lemma_one_path(model, EventKind::Modify(modify), path);
}

/// The departure of a tracked file awaits its arrival behind those that are awaited
/// already; that of another file is of no interest. Neither is reported.
pub proof fn departure_is_awaited(model: state::TrackerModel, path: rules::ProbedView)
    requires
        in_repo(model, path),
    ensures
        ({
            let away = EventKind::Modify(ModifyKind::Name(RenameMode::From));
            let after = events::processed(model, change_of(away, path));
            &&& after.events.len() == 0
            &&& after.model == state::TrackerModel {
                pending: if is_tracked_in(model, place(model, path)) {
                    model.pending.push(place(model, path))
                } else {
                    model.pending
                },
                ..model
            }
        }),
{
    lemma_one_path(model, EventKind::Modify(ModifyKind::Name(RenameMode::From)), path);
}

/// Other kinds of changes change nothing and are not reported.
pub proof fn other_kinds_are_of_no_interest(
    model: state::TrackerModel,
    kind: EventKind,
    path: rules::ProbedView,
)
    requires
        kind == EventKind::Any || kind == EventKind::Access || kind == EventKind::Other,
    ensures
        events::processed(model, change_of(kind, path)).model == model,
        events::processed(model, change_of(kind, path)).events.len() == 0,
{
    lemma_one_path(model, kind, path);
}

// ---------------------------------------------------------------------------
// Moves
// ---------------------------------------------------------------------------
/// What a move from one path to another comes to: the file leaves the tracked files
/// under its old path, joins them under its new one where it may be tracked there,
/// and the event says which of the two held. A move of a path to itself is none.
pub open spec fn follows_move(
    model: state::TrackerModel,
    from: Seq<u8>,
    to: Seq<u8>,
    probe: rules::ProbeView,
    after: events::Outcome,
) -> bool {
    let left = text::components(from);
    let joined = text::components(to);
    let was = is_tracked_in(model, from);
    let now = may_track(model, to, probe);
    if left == joined {
        after.model == model && after.events.len() == 0
    } else {
        &&& after.model == state::TrackerModel { files: after.model.files, ..model }
        &&& forall|key: Seq<Seq<u8>>| #[trigger]
            after.model.files.contains_key(key) == (key != left && model.files.contains_key(key)
                || now && key == joined)
        &&& forall|key: Seq<Seq<u8>>|
            key != left && model.files.contains_key(key) ==> #[trigger] after.model.files[key]
                == model.files[key]
        &&& now && !model.files.contains_key(joined) ==> after.model.files[joined] == to
        &&& was && now ==> after.events == seq![track::EventView::Moved(from, to)]
        &&& was && !now ==> after.events == seq![track::EventView::Removed(from)]
        &&& !was && now ==> after.events == seq![track::EventView::Created(to)]
        &&& !was && !now ==> after.events.len() == 0
    }
}

/// A file that moved is followed, wherever it moved and whatever is awaited.
pub proof fn rename_follows_file(
    model: state::TrackerModel,
    from: Seq<u8>,
    to: Seq<u8>,
    probe: rules::ProbeView,
)
    ensures
        follows_move(model, from, to, probe, events::renamed(model, from, to, probe)),
{
}

/// A move that is reported with both its sides follows the file from the first path
/// to the second where both lie in the repository, and otherwise changes no file.
/// Either way the moves that were awaited are forgotten.
pub proof fn full_move_follows_file(
    model: state::TrackerModel,
    paths: Seq<rules::ProbedView>,
)
    requires
        paths.len() >= 2,
    ensures
        ({
            let settled = state::TrackerModel { pending: Seq::empty(), ..model };
            let after = events::processed(
                model,
                events::FsEventView {
                    kind: EventKind::Modify(ModifyKind::Name(RenameMode::Both)),
                    paths,
                },
            );
            if in_repo(model, paths[0]) && in_repo(model, paths[1]) {
                follows_move(
                    settled,
                    place(model, paths[0]),
                    place(model, paths[1]),
                    paths[1].probe,
                    after,
                )
            } else {
                after.model == settled && after.events.len() == 0
            }
        }),
{
    let settled = state::TrackerModel { pending: Seq::empty(), ..model };
    rename_follows_file(
        settled,
        place(model, paths[0]),
        place(model, paths[1]),
        paths[1].probe,
    );
}

/// The arrival of a move belongs to the oldest departure that is awaited, and
/// follows the file from there.
pub proof fn arrival_belongs_to_oldest_departure(
    model: state::TrackerModel,
    path: rules::ProbedView,
)
    requires
        in_repo(model, path),
        model.pending.len() > 0,
    ensures
        follows_move(
            state::TrackerModel { pending: model.pending.skip(1), ..model },
            model.pending[0],
            place(model, path),
            path.probe,
            events::processed(
                model,
                change_of(EventKind::Modify(ModifyKind::Name(RenameMode::To)), path),
            ),
        ),
{
    lemma_one_path(model, EventKind::Modify(ModifyKind::Name(RenameMode::To)), path);
    assert(model.pending.drop_first() =~= model.pending.skip(1));
    rename_follows_file(
        state::TrackerModel { pending: model.pending.skip(1), ..model },
        model.pending[0],
        place(model, path),
        path.probe,
    );
}

// ---------------------------------------------------------------------------
// A change of several paths
// ---------------------------------------------------------------------------
proof fn lemma_each_appended(
    model: state::TrackerModel,
    kind: EventKind,
    a: Seq<rules::ProbedView>,
    b: Seq<rules::ProbedView>,
)
    ensures
        ({
            let first = events::each_processed(model, kind, a);
            let second = events::each_processed(first.model, kind, b);
            let both = events::each_processed(model, kind, a + b);
            both.model == second.model && both.events == first.events + second.events
        }),
    decreases b.len(),
{
    let first = events::each_processed(model, kind, a);
    if b.len() == 0 {
        assert(a + b =~= a);
        assert(first.events + Seq::<track::EventView>::empty() =~= first.events);
    } else {
        lemma_each_appended(model, kind, a, b.drop_last());
        assert((a + b).drop_last() =~= a + b.drop_last());
        let before = events::each_processed(first.model, kind, b.drop_last());
        let last = events::one_processed(before.model, kind, b.last());
        assert(first.events + (before.events + last.events) =~= (first.events + before.events)
            + last.events);
    }
}

/// A change of several paths, other than a move with both its sides, is the changes
/// of its paths one after the other: each is followed from where the one before led,
/// and none is left out.
pub proof fn several_paths_are_followed_in_turn(
    model: state::TrackerModel,
    kind: EventKind,
    first: Seq<rules::ProbedView>,
    path: rules::ProbedView,
    rest: Seq<rules::ProbedView>,
)
    requires
        kind != EventKind::Modify(ModifyKind::Name(RenameMode::Both)),
    ensures
        ({
            let one = events::processed(model, events::FsEventView { kind, paths: first });
            let two = events::processed(one.model, change_of(kind, path));
            let three = events::processed(two.model, events::FsEventView { kind, paths: rest });
            let all = events::processed(
                model,
                events::FsEventView { kind, paths: first + seq![path] + rest },
            );
            &&& all.model == three.model
            &&& all.events == one.events + two.events + three.events
        }),
{
    lemma_each_appended(model, kind, first, seq![path]);
    lemma_each_appended(model, kind, first + seq![path], rest);
}

/// A change without a path changes nothing and is not reported.
pub proof fn change_without_path_is_none(model: state::TrackerModel, kind: EventKind)
    ensures
        events::processed(model, events::FsEventView { kind, paths: Seq::empty() }).model == model,
        events::processed(
            model,
            events::FsEventView { kind, paths: Seq::empty() },
        ).events.len() == 0,
{
}

/// One of the paths of a change has the given components and may be tracked by the
/// model's own rules and settings, by what was seen of it.
pub open spec fn brings(
    model: state::TrackerModel,
    paths: Seq<rules::ProbedView>,
    key: Seq<Seq<u8>>,
) -> bool {
    exists|i: int|
        0 <= i < paths.len() && text::components(place(model, #[trigger] paths[i])) == key
            && may_track(model, place(model, paths[i]), paths[i].probe)
}

proof fn lemma_each_adds(
    model: state::TrackerModel,
    kind: EventKind,
    paths: Seq<rules::ProbedView>,
    key: Seq<Seq<u8>>,
)
    ensures
        events::each_processed(model, kind, paths).model.files.contains_key(key)
            && !model.files.contains_key(key) ==> brings(model, paths, key),
        events::each_processed(model, kind, paths).model == (state::TrackerModel {
            files: events::each_processed(model, kind, paths).model.files,
            pending: events::each_processed(model, kind, paths).model.pending,
            ..model
        }),
    decreases paths.len(),
{
    if paths.len() > 0 {
        let rest = paths.drop_last();
        let last = paths.last();
        let before = events::each_processed(model, kind, rest);
        lemma_each_adds(model, kind, rest, key);
        let after = events::one_processed(before.model, kind, last);
        if after.model.files.contains_key(key) && !model.files.contains_key(key) {
            if before.model.files.contains_key(key) {
                let i = choose|i: int|
                    0 <= i < rest.len() && text::components(place(model, #[trigger] rest[i])) == key
                        && may_track(model, place(model, rest[i]), rest[i].probe);
                assert(paths[i] == rest[i]);
            } else {
                assert(paths[paths.len() - 1] == last);
                assert(text::components(place(model, last)) == key);
                assert(may_track(model, place(model, last), last.probe));
            }
        }
    }
}

/// A file that a change adds to the tracked files is one of the paths of the change,
/// and the model's own rules and settings leave it to be tracked as a scan decides
/// it: in source-only mode it was seen to be a source file.
pub proof fn change_adds_only_what_may_be_tracked(
    model: state::TrackerModel,
    event: events::FsEventView,
    key: Seq<Seq<u8>>,
)
    requires
        events::processed(model, event).model.files.contains_key(key),
        !model.files.contains_key(key),
    ensures
        brings(model, event.paths, key),
        model.options.only_source ==> exists|i: int|
            0 <= i < event.paths.len() && text::components(
                place(model, #[trigger] event.paths[i]),
            ) == key && event.paths[i].probe.is_source,
{
    if events::is_full_move(event) {
        assert(event.paths[1] == event.paths[1]);
        assert(text::components(place(model, event.paths[1])) == key);
        assert(may_track(model, place(model, event.paths[1]), event.paths[1].probe));
    } else {
        lemma_each_adds(model, event.kind, event.paths, key);
    }
    let i = choose|i: int|
        0 <= i < event.paths.len() && text::components(place(model, #[trigger] event.paths[i]))
            == key && may_track(model, place(model, event.paths[i]), event.paths[i].probe);
    assert(event.paths[i].probe.is_source || !model.options.only_source);
}

/// A change touches nothing but the tracked files and the moves that are awaited.
pub proof fn change_keeps_the_rest(model: state::TrackerModel, event: events::FsEventView)
    ensures
        events::processed(model, event).model == (state::TrackerModel {
            files: events::processed(model, event).model.files,
            pending: events::processed(model, event).model.pending,
            ..model
        }),
{
    if !events::is_full_move(event) {
        lemma_each_adds(model, event.kind, event.paths, Seq::empty());
    }
}

proof fn lemma_each_ignores_readiness(
    a: state::TrackerModel,
    b: state::TrackerModel,
    kind: EventKind,
    paths: Seq<rules::ProbedView>,
)
    requires
        b == (state::TrackerModel { readiness: b.readiness, ..a }),
    ensures
        events::each_processed(b, kind, paths).events == events::each_processed(
            a,
            kind,
            paths,
        ).events,
        events::each_processed(b, kind, paths).model == (state::TrackerModel {
            readiness: b.readiness,
            ..events::each_processed(a, kind, paths).model
        }),
    decreases paths.len(),
{
    if paths.len() > 0 {
        lemma_each_ignores_readiness(a, b, kind, paths.drop_last());
    }
}

/// What a change comes to does not depend on which directories are up to date.
pub proof fn change_does_not_ask_for_readiness(
    a: state::TrackerModel,
    b: state::TrackerModel,
    event: events::FsEventView,
)
    requires
        b == (state::TrackerModel { readiness: b.readiness, ..a }),
    ensures
        events::processed(b, event).events == events::processed(a, event).events,
        events::processed(b, event).model == (state::TrackerModel {
            readiness: b.readiness,
            ..events::processed(a, event).model
        }),
{
    if !events::is_full_move(event) {
        lemma_each_ignores_readiness(a, b, event.kind, event.paths);
    }
}

// ---------------------------------------------------------------------------
// Giving up on moves
// ---------------------------------------------------------------------------
/// A path with the given components is among those in a list.
pub open spec fn is_awaited(list: Seq<Seq<u8>>, key: Seq<Seq<u8>>) -> bool {
    exists|i: int| 0 <= i < list.len() && text::components(#[trigger] list[i]) == key
}

proof fn lemma_awaited_first(list: Seq<Seq<u8>>, key: Seq<Seq<u8>>)
    requires
        list.len() > 0,
    ensures
        is_awaited(list, key) == (text::components(list[0]) == key || is_awaited(
            list.drop_first(),
            key,
        )),
{
    let rest = list.drop_first();
    if is_awaited(list, key) {
        let i = choose|i: int| 0 <= i < list.len() && text::components(#[trigger] list[i]) == key;
        if i > 0 {
            assert(rest[i - 1] == list[i]);
        }
    }
    if is_awaited(rest, key) {
        let i = choose|i: int| 0 <= i < rest.len() && text::components(#[trigger] rest[i]) == key;
        assert(list[i + 1] == rest[i]);
    }
}

/// After giving up on the moves that are awaited, none of their files is tracked,
/// every other file is tracked as before, and no move is awaited. Nothing else
/// changes.
pub proof fn given_up_files_are_gone(model: state::TrackerModel, key: Seq<Seq<u8>>)
    ensures
        events::flushed(model).model.files.contains_key(key) == (model.files.contains_key(key)
            && !is_awaited(model.pending, key)),
        events::flushed(model).model.files.contains_key(key) ==> events::flushed(
            model,
        ).model.files[key] == model.files[key],
        events::flushed(model).model.pending.len() == 0,
        events::flushed(model).model == (state::TrackerModel {
            files: events::flushed(model).model.files,
            pending: Seq::empty(),
            ..model
        }),
    decreases model.pending.len(),
{
    if model.pending.len() > 0 {
        let path = model.pending.first();
        let next = state::TrackerModel {
            pending: model.pending.drop_first(),
            files: model.files.remove(text::components(path)),
            ..model
        };
        given_up_files_are_gone(next, key);
        lemma_awaited_first(model.pending, key);
    } else {
        assert(model.pending =~= Seq::<Seq<u8>>::empty());
    }
}

/// One more move that is given up, behind the others: its removal is reported, after
/// theirs, where its file is tracked and was not given up before it. So each file
/// that is given up is reported exactly once, in the order in which the moves were
/// awaited; and with no move awaited nothing is reported.
pub proof fn each_given_up_file_is_reported_in_turn(model: state::TrackerModel, path: Seq<u8>)
    ensures
        events::flushed(
            state::TrackerModel { pending: model.pending.push(path), ..model },
        ).events == events::flushed(model).events + (if is_tracked_in(model, path) && !is_awaited(
            model.pending,
            text::components(path),
        ) {
            seq![track::EventView::Removed(path)]
        } else {
            Seq::empty()
        }),
        model.pending.len() == 0 ==> events::flushed(model).events.len() == 0,
    decreases model.pending.len(),
{
    let none = Seq::<track::EventView>::empty();
    let key = text::components(path);
    let more = state::TrackerModel { pending: model.pending.push(path), ..model };
    if model.pending.len() == 0 {
        assert(!is_awaited(model.pending, key));
        assert(more.pending.first() == path);
        let rest = state::TrackerModel {
            pending: more.pending.drop_first(),
            files: more.files.remove(key),
            ..more
        };
        assert(rest.pending.len() == 0);
        assert(events::flushed(rest).events == none);
        assert(seq![track::EventView::Removed(path)] + none =~= none
            + seq![track::EventView::Removed(path)]);
    } else {
        let first = model.pending.first();
        let next = state::TrackerModel {
            pending: model.pending.drop_first(),
            files: model.files.remove(text::components(first)),
            ..model
        };
        assert(more.pending.first() == first);
        assert(more.pending.drop_first() =~= next.pending.push(path));
        each_given_up_file_is_reported_in_turn(next, path);
        lemma_awaited_first(model.pending, key);
        let tail = if is_tracked_in(model, path) && !is_awaited(model.pending, key) {
            seq![track::EventView::Removed(path)]
        } else {
            none
        };
        let head = seq![track::EventView::Removed(first)];
        assert(head + (events::flushed(next).events + tail) =~= (head + events::flushed(
            next,
        ).events) + tail);
    }
}

// ---------------------------------------------------------------------------
// Differences between two scans
// ---------------------------------------------------------------------------
/// The events of a change of the ignore rules: a file is reported as tracked now
/// exactly where it is now, was not, and is not left out; as untracked exactly where
/// it was, is not now, and is not left out; under the text that it has. There are no
/// other events.
pub proof fn diff_reports_each_difference(
    before: path_set::PathMap,
    after: path_set::PathMap,
    left_out: path_set::PathMap,
    path: Seq<u8>,
)
    requires
        path_set::is_listable(before),
        path_set::is_listable(after),
    ensures
        ({
            let key = text::components(path);
            let list = events::diff_events(before, after, left_out);
            &&& list.contains(track::EventView::NowTracked(path)) == (after.contains_key(key)
                && after[key] == path && !before.contains_key(key) && !left_out.contains_key(key))
            &&& list.contains(track::EventView::Untracked(path)) == (before.contains_key(key)
                && before[key] == path && !after.contains_key(key) && !left_out.contains_key(key))
            &&& forall|i: int|
                0 <= i < list.len() ==> #[trigger] list[i] is NowTracked || list[i] is Untracked
        }),
{
    let now = after.remove_keys(before.dom().union(left_out.dom()));
    let gone = before.remove_keys(after.dom().union(left_out.dom()));
    path_set::remove_keys_is_listable(after, before.dom().union(left_out.dom()));
    path_set::remove_keys_is_listable(before, after.dom().union(left_out.dom()));
    path_laws::listing_is_exact(now, path);
    path_laws::listing_is_exact(gone, path);
    let a = path_set::ascending(now);
    let b = path_set::ascending(gone);
    let x = a.map_values(|path: Seq<u8>| track::EventView::NowTracked(path));
    let y = b.map_values(|path: Seq<u8>| track::EventView::Untracked(path));
    let list = events::diff_events(before, after, left_out);
    assert(list == x + y);
    let ev_now = track::EventView::NowTracked(path);
    let ev_gone = track::EventView::Untracked(path);
    if a.contains(path) {
        let i = choose|i: int| 0 <= i < a.len() && a[i] == path;
        assert(list[i] == ev_now);
    }
    if list.contains(ev_now) {
        let i = choose|i: int| 0 <= i < list.len() && list[i] == ev_now;
        if i < x.len() {
            assert(list[i] == x[i]);
            assert(a[i] == path);
        } else {
            assert(list[i] == y[i - x.len()]);
        }
    }
    if b.contains(path) {
        let i = choose|i: int| 0 <= i < b.len() && b[i] == path;
        assert(list[x.len() + i] == ev_gone);
    }
    if list.contains(ev_gone) {
        let i = choose|i: int| 0 <= i < list.len() && list[i] == ev_gone;
        if i < x.len() {
            assert(list[i] == x[i]);
        } else {
            assert(list[i] == y[i - x.len()]);
            assert(b[i - x.len()] == path);
        }
    }
    assert forall|i: int| 0 <= i < list.len() implies #[trigger] list[i] is NowTracked
        || list[i] is Untracked by {
        if i < x.len() {
            assert(list[i] == x[i]);
        } else {
            assert(list[i] == y[i - x.len()]);
        }
    }
}

/// The events of a change of the ignore rules are in order: what is tracked now
/// comes before what is untracked, and of two events of one kind the one of the
/// smaller path comes first. So no file is reported twice.
pub proof fn diff_is_in_order(
    before: path_set::PathMap,
    after: path_set::PathMap,
    left_out: path_set::PathMap,
    i: int,
    j: int,
)
    requires
        path_set::is_listable(before),
        path_set::is_listable(after),
        0 <= i < j < events::diff_events(before, after, left_out).len(),
    ensures
        match (
            events::diff_events(before, after, left_out)[i],
            events::diff_events(before, after, left_out)[j],
        ) {
            (track::EventView::NowTracked(a), track::EventView::NowTracked(b)) => order::parts_less(
                text::components(a),
                text::components(b),
            ),
            (track::EventView::Untracked(a), track::EventView::Untracked(b)) => order::parts_less(
                text::components(a),
                text::components(b),
            ),
            (track::EventView::NowTracked(a), track::EventView::Untracked(b)) => true,
            _ => false,
        },
{
    let now = after.remove_keys(before.dom().union(left_out.dom()));
    let gone = before.remove_keys(after.dom().union(left_out.dom()));
    path_set::remove_keys_is_listable(after, before.dom().union(left_out.dom()));
    path_set::remove_keys_is_listable(before, after.dom().union(left_out.dom()));
    path_laws::listing_is_exact(now, Seq::empty());
    path_laws::listing_is_exact(gone, Seq::empty());
    let a = path_set::ascending(now);
    let b = path_set::ascending(gone);
    let x = a.map_values(|path: Seq<u8>| track::EventView::NowTracked(path));
    let y = b.map_values(|path: Seq<u8>| track::EventView::Untracked(path));
    let list = events::diff_events(before, after, left_out);
    assert(list == x + y);
    if i < x.len() {
        assert(list[i] == track::EventView::NowTracked(a[i]));
    } else {
        assert(list[i] == track::EventView::Untracked(b[i - x.len()]));
    }
    if j < x.len() {
        assert(list[j] == track::EventView::NowTracked(a[j]));
    } else {
        assert(list[j] == track::EventView::Untracked(b[j - x.len()]));
    }
}

} // verus!
