//! What a batch of reported changes comes to.

use vstd::prelude::*;

use crate::batch;
use crate::event_laws;
use crate::events;
use crate::events::{EventKind, FsEvent, ModifyKind, RenameMode};
use crate::laws;
use crate::readiness::SegmentReadiness;
use crate::rules;
use crate::state;
use crate::state_laws;
use crate::text;
use crate::track;

verus! {

/// The changes in a list, one after the other: each but a mere reading is followed
/// from the state that the ones before it led to, whatever they were, and its events
/// come behind theirs.
pub open spec fn followed(
    model: state::TrackerModel,
    list: Seq<events::FsEventView>,
) -> events::Outcome
    decreases list.len(),
{
    if list.len() == 0 {
        events::Outcome { model, events: Seq::empty() }
    } else {
        let before = followed(model, list.drop_last());
        if list.last().kind == EventKind::Access {
            before
        } else {
            let last = events::processed(before.model, list.last());
            events::Outcome { model: last.model, events: before.events + last.events }
        }
    }
}

proof fn lemma_noting_is_about_readiness(
    batch: batch::BatchModel,
    paths: Seq<rules::ProbedView>,
)
    ensures
        batch::each_noted(batch, paths).model == (state::TrackerModel {
            readiness: batch::each_noted(batch, paths).model.readiness,
            ..batch.model
        }),
        batch::each_noted(batch, paths).events == batch.events,
    decreases paths.len(),
{
    if paths.len() > 0 {
        lemma_noting_is_about_readiness(batch, paths.drop_last());
    }
}

proof fn lemma_handling_is_following(
    model: state::TrackerModel,
    list: Seq<events::FsEventView>,
)
    ensures
        batch::each_handled(model, list).events == followed(model, list).events,
        batch::each_handled(model, list).model == (state::TrackerModel {
            readiness: batch::each_handled(model, list).model.readiness,
            ..followed(model, list).model
        }),
    decreases list.len(),
{
    if list.len() > 0 {
        let before = batch::each_handled(model, list.drop_last());
        let event = list.last();
        lemma_handling_is_following(model, list.drop_last());
        if event.kind != EventKind::Access {
            let mid = batch::each_noted(before, event.paths);
            lemma_noting_is_about_readiness(before, event.paths);
            event_laws::change_does_not_ask_for_readiness(
                followed(model, list.drop_last()).model,
                mid.model,
                event,
            );
        }
    }
}

proof fn lemma_flush_ignores_readiness(a: state::TrackerModel, b: state::TrackerModel)
    requires
        b == (state::TrackerModel { readiness: b.readiness, ..a }),
    ensures
        events::flushed(b).events == events::flushed(a).events,
        events::flushed(b).model == (state::TrackerModel {
            readiness: b.readiness,
            ..events::flushed(a).model
        }),
    decreases a.pending.len(),
{
    if a.pending.len() > 0 {
        let key = text::components(a.pending.first());
        lemma_flush_ignores_readiness(
            state::TrackerModel {
                pending: a.pending.drop_first(),
                files: a.files.remove(key),
                ..a
            },
            state::TrackerModel {
                pending: b.pending.drop_first(),
                files: b.files.remove(key),
                ..b
            },
        );
    }
}

/// The events of a batch are those of its changes in their order, each followed from
/// where the ones before led, then the removals of the files whose moves are given
/// up on at the end. The tracked files are those that all this leads to.
pub proof fn batch_follows_every_change(
    model: state::TrackerModel,
    list: Seq<events::FsEventView>,
)
    ensures
        batch::batch_handled(model, list).events == followed(model, list).events
            + events::flushed(followed(model, list).model).events,
        batch::batch_handled(model, list).model == (state::TrackerModel {
            readiness: batch::batch_handled(model, list).model.readiness,
            ..events::flushed(followed(model, list).model).model
        }),
{
    lemma_handling_is_following(model, list);
    lemma_flush_ignores_readiness(
        followed(model, list).model,
        batch::each_handled(model, list).model,
    );
}

/// A batch that was reported is handled as the list of its changes; one that failed
/// changes nothing, touches nothing, asks for no new rules, and reports each failure
/// in its order.
pub proof fn batch_result_is_exact(
    model: state::TrackerModel,
    list: Vec<FsEvent>,
    messages: Vec<String>,
    i: int,
)
    ensures
        batch::result_handled(model, Ok(list)) == batch::batch_handled(
            model,
            events::fs_event_views(list@),
        ),
        batch::result_handled(model, Err(messages)).model == model,
        batch::result_handled(model, Err(messages)).events.len() == messages@.len(),
        0 <= i < messages@.len() ==> batch::result_handled(model, Err(messages)).events[i]
            == track::EventView::Error(messages@[i]@),
        batch::result_handled(model, Err(messages)).touched == Map::<
            Seq<Seq<u8>>,
            Seq<u8>,
        >::empty(),
        !batch::result_handled(model, Err(messages)).rebuild,
{
}

proof fn lemma_followed_prefix(
    model: state::TrackerModel,
    list: Seq<events::FsEventView>,
    n: int,
    event: track::EventView,
)
    requires
        0 <= n <= list.len(),
        followed(model, list.take(n)).events.contains(event),
    ensures
        followed(model, list).events.contains(event),
    decreases list.len() - n,
{
    if n == list.len() {
        assert(list.take(n) =~= list);
    } else {
        let longer = list.take(n + 1);
        assert(longer.drop_last() =~= list.take(n));
        let before = followed(model, list.take(n)).events;
        let after = followed(model, longer).events;
        let i = choose|i: int| 0 <= i < before.len() && before[i] == event;
        assert(after[i] == event);
        lemma_followed_prefix(model, list, n + 1, event);
    }
}

proof fn lemma_followed_keeps_place(
    model: state::TrackerModel,
    list: Seq<events::FsEventView>,
)
    ensures
        followed(model, list).model == (state::TrackerModel {
            files: followed(model, list).model.files,
            pending: followed(model, list).model.pending,
            ..model
        }),
    decreases list.len(),
{
    if list.len() > 0 {
        lemma_followed_keeps_place(model, list.drop_last());
        event_laws::change_keeps_the_rest(
            followed(model, list.drop_last()).model,
            list.last(),
        );
    }
}

proof fn lemma_modifying_keeps_files(
    model: state::TrackerModel,
    modify: ModifyKind,
    paths: Seq<rules::ProbedView>,
    key: Seq<Seq<u8>>,
)
    requires
        modify != ModifyKind::Name(RenameMode::From),
        modify != ModifyKind::Name(RenameMode::To),
        modify != ModifyKind::Name(RenameMode::Both),
        model.files.contains_key(key),
    ensures
        events::processed(
            model,
            events::FsEventView { kind: EventKind::Modify(modify), paths },
        ).model.files.contains_key(key),
    decreases paths.len(),
{
    if paths.len() > 0 {
        let kind = EventKind::Modify(modify);
        lemma_modifying_keeps_files(model, modify, paths.drop_last(), key);
        let before = events::processed(
            model,
            events::FsEventView { kind, paths: paths.drop_last() },
        );
        assert(events::one_processed(before.model, kind, paths.last()).model.files.contains_key(
            key,
        ));
    }
}

/// A modification of several paths reports each of them that is tracked as changed.
pub proof fn every_modified_path_is_reported(
    model: state::TrackerModel,
    modify: ModifyKind,
    paths: Seq<rules::ProbedView>,
    j: int,
)
    requires
        modify != ModifyKind::Name(RenameMode::From),
        modify != ModifyKind::Name(RenameMode::To),
        modify != ModifyKind::Name(RenameMode::Both),
        0 <= j < paths.len(),
        event_laws::in_repo(model, paths[j]),
        event_laws::is_tracked_in(model, event_laws::place(model, paths[j])),
    ensures
        events::processed(
            model,
            events::FsEventView { kind: EventKind::Modify(modify), paths },
        ).events.contains(track::EventView::Changed(event_laws::place(model, paths[j]))),
{
    let kind = EventKind::Modify(modify);
    let first = paths.take(j);
    let path = paths[j];
    let rest = paths.skip(j + 1);
    let key = text::components(event_laws::place(model, path));
    let event = track::EventView::Changed(event_laws::place(model, path));
    assert(paths =~= first + seq![path] + rest);
    event_laws::several_paths_are_followed_in_turn(model, kind, first, path, rest);
    let before = events::FsEventView { kind, paths: first };
    event_laws::change_keeps_the_rest(model, before);
    lemma_modifying_keeps_files(model, modify, first, key);
    let one = events::processed(model, before);
    event_laws::modification_is_reported(one.model, modify, path);
    let all = events::processed(model, events::FsEventView { kind, paths }).events;
    assert(all[one.events.len() as int] == event);
}

/// A modification of a tracked file anywhere in a batch is reported as a change of
/// that file, whatever came before it and whatever follows.
pub proof fn modification_anywhere_in_batch_is_reported(
    model: state::TrackerModel,
    list: Seq<events::FsEventView>,
    i: int,
    j: int,
    modify: ModifyKind,
)
    requires
        0 <= i < list.len(),
        list[i].kind == EventKind::Modify(modify),
        modify != ModifyKind::Name(RenameMode::From),
        modify != ModifyKind::Name(RenameMode::To),
        modify != ModifyKind::Name(RenameMode::Both),
        0 <= j < list[i].paths.len(),
        event_laws::in_repo(model, list[i].paths[j]),
        event_laws::is_tracked_in(
            followed(model, list.take(i)).model,
            event_laws::place(model, list[i].paths[j]),
        ),
    ensures
        batch::batch_handled(model, list).events.contains(
            track::EventView::Changed(event_laws::place(model, list[i].paths[j])),
        ),
{
    let event = track::EventView::Changed(event_laws::place(model, list[i].paths[j]));
    let before = followed(model, list.take(i));
    lemma_followed_keeps_place(model, list.take(i));
    every_modified_path_is_reported(before.model, modify, list[i].paths, j);
    let longer = list.take(i + 1);
    assert(longer.drop_last() =~= list.take(i));
    assert(longer.last() == list[i]);
    let step = events::processed(before.model, list[i]).events;
    assert(events::FsEventView { kind: EventKind::Modify(modify), paths: list[i].paths }
        == list[i]);
    let k = choose|k: int| 0 <= k < step.len() && step[k] == event;
    assert(followed(model, longer).events[before.events.len() + k] == event);
    lemma_followed_prefix(model, list, i + 1, event);
    batch_follows_every_change(model, list);
    let all = followed(model, list).events;
    let m = choose|m: int| 0 <= m < all.len() && all[m] == event;
    assert(batch::batch_handled(model, list).events[m] == event);
}

/// One of the changes in a list, other than a mere reading, has a path with the
/// given components that may be tracked by the model's own rules and settings.
pub open spec fn batch_brings(
    model: state::TrackerModel,
    list: Seq<events::FsEventView>,
    key: Seq<Seq<u8>>,
) -> bool {
    exists|i: int|
        0 <= i < list.len() && (#[trigger] list[i]).kind != EventKind::Access
            && event_laws::brings(model, list[i].paths, key)
}

proof fn lemma_followed_adds(
    model: state::TrackerModel,
    list: Seq<events::FsEventView>,
    key: Seq<Seq<u8>>,
)
    requires
        followed(model, list).model.files.contains_key(key),
        !model.files.contains_key(key),
    ensures
        batch_brings(model, list, key),
    decreases list.len(),
{
    let rest = list.drop_last();
    let before = followed(model, rest);
    if before.model.files.contains_key(key) {
        lemma_followed_adds(model, rest, key);
        let i = choose|i: int|
            0 <= i < rest.len() && (#[trigger] rest[i]).kind != EventKind::Access
                && event_laws::brings(model, rest[i].paths, key);
        assert(list[i] == rest[i]);
    } else {
        let event = list.last();
        assert(list[list.len() - 1] == event);
        lemma_followed_keeps_place(model, rest);
        event_laws::change_adds_only_what_may_be_tracked(before.model, event, key);
        let paths = event.paths;
        let i = choose|i: int|
            0 <= i < paths.len() && text::components(
                event_laws::place(before.model, #[trigger] paths[i]),
            ) == key && event_laws::may_track(
                before.model,
                event_laws::place(before.model, paths[i]),
                paths[i].probe,
            );
        assert(text::components(event_laws::place(model, paths[i])) == key);
        assert(event_laws::may_track(model, event_laws::place(model, paths[i]), paths[i].probe));
        assert(event_laws::brings(model, paths, key));
    }
}

/// A file that a batch adds to the tracked files was reported by one of its changes,
/// and the rules and settings in force leave it to be tracked.
pub proof fn batch_adds_only_what_may_be_tracked(
    model: state::TrackerModel,
    list: Seq<events::FsEventView>,
    key: Seq<Seq<u8>>,
)
    requires
        batch::batch_handled(model, list).model.files.contains_key(key),
        !model.files.contains_key(key),
    ensures
        batch_brings(model, list, key),
{
    batch_follows_every_change(model, list);
    event_laws::given_up_files_are_gone(followed(model, list).model, key);
    lemma_followed_adds(model, list, key);
}

// ---------------------------------------------------------------------------
// Directories that a batch puts out of date
// ---------------------------------------------------------------------------
/// A reported path changes what is ignored and concerns a directory with the given
/// components.
pub open spec fn path_outdates(
    model: state::TrackerModel,
    path: rules::ProbedView,
    key: Seq<Seq<u8>>,
) -> bool {
    laws::path_changes_rules(model, path) && state_laws::outdates(
        model,
        text::joined(model.cwd, path.path),
        key,
    )
}

/// A change other than a mere reading has a path that changes what is ignored and
/// concerns a directory with the given components.
pub open spec fn event_outdates(
    model: state::TrackerModel,
    event: events::FsEventView,
    key: Seq<Seq<u8>>,
) -> bool {
    event.kind != EventKind::Access && exists|i: int|
        0 <= i < event.paths.len() && path_outdates(model, #[trigger] event.paths[i], key)
}

proof fn lemma_noting_outdates(
    batch: batch::BatchModel,
    paths: Seq<rules::ProbedView>,
    key: Seq<Seq<u8>>,
)
    ensures
        ({
            let after = batch::each_noted(batch, paths).model.readiness;
            let hit = exists|i: int|
                0 <= i < paths.len() && path_outdates(batch.model, #[trigger] paths[i], key);
            &&& after.contains_key(key) == batch.model.readiness.contains_key(key)
            &&& after.contains_key(key) ==> after[key] == (if hit {
                SegmentReadiness::Dirty
            } else {
                batch.model.readiness[key]
            })
        }),
    decreases paths.len(),
{
    if paths.len() > 0 {
        let rest = paths.drop_last();
        let last = paths.last();
        let before = batch::each_noted(batch, rest);
        lemma_noting_outdates(batch, rest, key);
        lemma_noting_is_about_readiness(batch, rest);
        state_laws::outdating_is_exact(before.model, last.path, key);
        assert(path_outdates(before.model, last, key) == path_outdates(batch.model, last, key));
        assert(paths[paths.len() - 1] == last);
        assert(forall|i: int| 0 <= i < rest.len() ==> #[trigger] rest[i] == paths[i]);
        assert(forall|i: int| 0 <= i < rest.len() ==> #[trigger] paths[i] == rest[i]);
    }
}

/// After a batch a directory that was up to date still is exactly where none of the
/// batch's changes changes what is ignored there; no directory becomes known, and
/// none that was out of date becomes up to date.
pub proof fn batch_outdates_what_it_concerns(
    model: state::TrackerModel,
    list: Seq<events::FsEventView>,
    key: Seq<Seq<u8>>,
)
    ensures
        ({
            let after = batch::batch_handled(model, list).model.readiness;
            let hit = exists|i: int|
                0 <= i < list.len() && event_outdates(model, #[trigger] list[i], key);
            &&& after.contains_key(key) == model.readiness.contains_key(key)
            &&& after.contains_key(key) ==> after[key] == (if hit {
                SegmentReadiness::Dirty
            } else {
                model.readiness[key]
            })
        }),
{
    lemma_handling_outdates(model, list, key);
    event_laws::given_up_files_are_gone(batch::each_handled(model, list).model, key);
}

proof fn lemma_handling_outdates(
    model: state::TrackerModel,
    list: Seq<events::FsEventView>,
    key: Seq<Seq<u8>>,
)
    ensures
        ({
            let after = batch::each_handled(model, list).model.readiness;
            let hit = exists|i: int|
                0 <= i < list.len() && event_outdates(model, #[trigger] list[i], key);
            &&& after.contains_key(key) == model.readiness.contains_key(key)
            &&& after.contains_key(key) ==> after[key] == (if hit {
                SegmentReadiness::Dirty
            } else {
                model.readiness[key]
            })
        }),
    decreases list.len(),
{
    if list.len() > 0 {
        let rest = list.drop_last();
        let last = list.last();
        let before = batch::each_handled(model, rest);
        lemma_handling_outdates(model, rest, key);
        lemma_handling_is_following(model, rest);
        lemma_followed_keeps_place(model, rest);
        lemma_noting_outdates(before, last.paths, key);
        if last.kind != EventKind::Access {
            let mid = batch::each_noted(before, last.paths);
            event_laws::change_keeps_the_rest(mid.model, last);
        }
        assert(forall|path: rules::ProbedView|
            path_outdates(before.model, path, key) == #[trigger] path_outdates(model, path, key));
        assert(list[list.len() - 1] == last);
        assert(forall|i: int| 0 <= i < rest.len() ==> #[trigger] rest[i] == list[i]);
        assert(forall|i: int| 0 <= i < rest.len() ==> #[trigger] list[i] == rest[i]);
    }
}

/// A path that counts as touched lies in the tracked directory.
pub proof fn touched_paths_lie_in_the_tracked_directory(
    model: state::TrackerModel,
    list: Seq<events::FsEventView>,
    key: Seq<Seq<u8>>,
)
    requires
        batch::batch_handled(model, list).touched.contains_key(key),
    ensures
        text::components(model.cwd).is_prefix_of(key),
{
    laws::batch_notes_are_exact(model, list, key);
    let i = choose|i: int|
        0 <= i < list.len() && laws::event_touches(model, #[trigger] list[i], key);
    let paths = list[i].paths;
    let j = choose|j: int|
        0 <= j < paths.len() && laws::path_touches(model, #[trigger] paths[j], key);
    assert(laws::path_touches(model, paths[j], key));
}

} // verus!
