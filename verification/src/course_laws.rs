//! What a running tracker does with each input, and what a whole course of inputs
//! leads to.

use vstd::prelude::*;

use crate::aux_watch;
use crate::batch;
use crate::batch_laws;
use crate::events;
use crate::events::FsEvent;
use crate::laws;
use crate::path;
use crate::path_set;
use crate::rules;
use crate::state;
use crate::state_laws;
use crate::text;
use crate::track;
use crate::tracker;
use crate::tracker::{Action, Input, Rebuilt, Refreshed};

verus! {

/// The action that a phase waits for the end of, one by one.
pub open spec fn action_of(phase: tracker::PhaseView) -> Action {
    match phase {
        tracker::PhaseView::Idle => Action::Wait,
        tracker::PhaseView::QuerySettling(path) => Action::Settle,
        tracker::PhaseView::BatchSettling(touched, query) => Action::Settle,
        tracker::PhaseView::QueryDraining(path) => Action::Poll,
        tracker::PhaseView::QueryRebuilding(path) => Action::Rebuild,
        tracker::PhaseView::BatchRebuilding(touched, query) => Action::Rebuild,
        tracker::PhaseView::QueryRefreshing(path) => Action::Refresh,
        tracker::PhaseView::BatchRefreshing(query) => Action::Refresh,
        tracker::PhaseView::Stopped => Action::Stop,
    }
}

/// The inputs that a phase waits for.
pub open spec fn is_expected(phase: tracker::PhaseView, input: Input) -> bool {
    match phase {
        tracker::PhaseView::Idle => input is Stop || input is BatchesClosed || input is Query
            || input is Batch,
        tracker::PhaseView::QuerySettling(path) => input is Settled,
        tracker::PhaseView::BatchSettling(touched, query) => input is Settled,
        tracker::PhaseView::QueryDraining(path) => input is Batch || input is Drained,
        tracker::PhaseView::QueryRebuilding(path) => input is Rebuilt || input is RebuildFailed,
        tracker::PhaseView::BatchRebuilding(touched, query) => input is Rebuilt
            || input is RebuildFailed,
        tracker::PhaseView::QueryRefreshing(path) => input is Refreshed,
        tracker::PhaseView::BatchRefreshing(query) => input is Refreshed,
        tracker::PhaseView::Stopped => false,
    }
}

/// An input that the tracker does not wait for changes nothing, is not reported, and
/// the tracker asks again for what it waits for.
pub proof fn unexpected_input_changes_nothing(tracker: tracker::TrackerView, input: Input)
    requires
        !is_expected(tracker.phase, input),
    ensures
        tracker::stepped(tracker, input).tracker == tracker,
        tracker::stepped(tracker, input).events.len() == 0,
        tracker::stepped(tracker, input).action == action_of(tracker.phase),
{
}

/// After every step the tracker asks for what its phase waits for, or it has just
/// answered a query and waits.
pub proof fn action_fits_the_phase(tracker: tracker::TrackerView, input: Input)
    ensures
        tracker::stepped(tracker, input).action == action_of(
            tracker::stepped(tracker, input).tracker.phase,
        ) || (tracker::stepped(tracker, input).action is Answer && tracker::stepped(
            tracker,
            input,
        ).tracker.phase is Idle),
        tracker::stepped(tracker, input).action is Answer ==> tracker.phase is QueryDraining
            || tracker.phase is QueryRebuilding || tracker.phase is QueryRefreshing,
{
}

/// The tracker turns to a phase and changes nothing else; nothing is reported.
pub open spec fn only_turns(
    tracker: tracker::TrackerView,
    step: tracker::Step,
    phase: tracker::PhaseView,
) -> bool {
    &&& step.tracker == tracker::TrackerView { phase, ..tracker }
    &&& step.events.len() == 0
    &&& step.action == action_of(phase)
}

/// An idle tracker stops when it is told to or when nothing will be reported any
/// more, and lets changes settle when it is asked about a path. Delays that end lead
/// on to draining or to the rebuild.
pub proof fn plain_turns(
    tracker: tracker::TrackerView,
    asked: path::AbsPath,
)
    ensures
        tracker.phase is Idle ==> only_turns(
            tracker,
            tracker::stepped(tracker, Input::Stop),
            tracker::PhaseView::Stopped,
        ),
        tracker.phase is Idle ==> only_turns(
            tracker,
            tracker::stepped(tracker, Input::BatchesClosed),
            tracker::PhaseView::Stopped,
        ),
        tracker.phase is Idle ==> only_turns(
            tracker,
            tracker::stepped(tracker, Input::Query(asked)),
            tracker::PhaseView::QuerySettling(asked@),
        ),
        tracker.phase matches tracker::PhaseView::QuerySettling(path) ==> only_turns(
            tracker,
            tracker::stepped(tracker, Input::Settled),
            tracker::PhaseView::QueryDraining(path),
        ),
        tracker.phase matches tracker::PhaseView::BatchSettling(touched, query) ==> only_turns(
            tracker,
            tracker::stepped(tracker, Input::Settled),
            tracker::PhaseView::BatchRebuilding(touched, query),
        ),
{
}

/// The tracker takes batches: it is idle, or it drains the batches before a query.
pub open spec fn takes_batches(tracker: tracker::TrackerView, query: Option<Seq<u8>>) -> bool {
    match query {
        None => tracker.phase == tracker::PhaseView::Idle,
        Some(path) => tracker.phase == tracker::PhaseView::QueryDraining(path),
    }
}

/// Where the tracker goes when a batch is done with: back to draining for the query
/// that waits, or to waiting.
pub open spec fn after_batch(query: Option<Seq<u8>>) -> tracker::PhaseView {
    match query {
        None => tracker::PhaseView::Idle,
        Some(path) => tracker::PhaseView::QueryDraining(path),
    }
}

/// A batch is handled at once, whether a query waits or not: its events are
/// reported, and the files are those that it leads to. Where one of its changes
/// changes what is ignored the tracker lets changes settle, with the touched paths
/// and the query in mind; otherwise it is done with the batch.
pub proof fn batch_is_handled_at_once(
    tracker: tracker::TrackerView,
    query: Option<Seq<u8>>,
    result: Result<Vec<FsEvent>, Vec<String>>,
)
    requires
        takes_batches(tracker, query),
    ensures
        ({
            let step = tracker::stepped(tracker, Input::Batch(result));
            let after = batch::result_handled(tracker.model, result);
            &&& step.events == after.events
            &&& step.tracker.model == after.model
            &&& step.tracker.aux_watches == tracker.aux_watches
            &&& after.rebuild ==> step.tracker.phase == tracker::PhaseView::BatchSettling(
                after.touched,
                query,
            ) && step.action == Action::Settle
            &&& !after.rebuild ==> step.tracker.phase == after_batch(query) && step.action
                == action_of(after_batch(query))
        }),
{
}

/// The model that new rules and a new scan lead to: the files of the scan under the
/// new rules, no move awaited, every known directory up to date, and the project and
/// the settings as they were.
pub open spec fn takes_over(
    before: state::TrackerModel,
    rebuilt: Rebuilt,
    after: state::TrackerModel,
) -> bool {
    &&& state::scanned(
        before.cwd,
        rules::rule_verdicts(rebuilt.ignore_filter),
        before.options.only_source,
        match rebuilt.current_dir {
            Some(dir) => Some(dir@),
            None => None,
        },
        rules::probed_views(rebuilt.candidates@),
    ) == Some(after.files)
    &&& after.cwd == before.cwd
    &&& after.repo == before.repo
    &&& after.options == before.options
    &&& after.ignore_filter == rebuilt.ignore_filter
    &&& after.ignore_files == rebuilt.ignore_files@
    &&& after.pending.len() == 0
    &&& after.readiness.dom() == before.readiness.dom()
    &&& forall|key: Seq<Seq<u8>>|
        before.readiness.contains_key(key) ==> #[trigger] state_laws::is_up_to_date(
            after.readiness,
            key,
        )
}

/// A new scan can be made: every candidate can be resolved.
pub open spec fn can_scan(rebuilt: Rebuilt) -> bool {
    forall|i: int|
        0 <= i < rebuilt.candidates@.len() ==> path::resolved(
            (#[trigger] rebuilt.candidates@[i]).path@,
            match rebuilt.current_dir {
                Some(dir) => Some(dir@),
                None => None,
            },
        ) is Some
}

proof fn lemma_can_scan(model: state::TrackerModel, rebuilt: Rebuilt)
    ensures
        tracker::rescanned(model, rebuilt) is Some == can_scan(rebuilt),
{
    let views = rules::probed_views(rebuilt.candidates@);
    let dir = match rebuilt.current_dir {
        Some(dir) => Some(dir@),
        None => None,
    };
    state_laws::scan_finds_the_tracked_candidates(
        model.cwd,
        rules::rule_verdicts(rebuilt.ignore_filter),
        model.options.only_source,
        dir,
        views,
        Seq::empty(),
    );
    assert(forall|i: int|
        0 <= i < views.len() ==> (#[trigger] views[i]).path == rebuilt.candidates@[i].path@);
    if can_scan(rebuilt) {
        assert forall|i: int| 0 <= i < views.len() implies path::resolved(
            (#[trigger] views[i]).path,
            dir,
        ) is Some by {
            assert(path::resolved(rebuilt.candidates@[i].path@, dir) is Some);
        }
    } else {
        let i = choose|i: int|
            0 <= i < rebuilt.candidates@.len() && path::resolved(
                (#[trigger] rebuilt.candidates@[i]).path@,
                dir,
            ) is None;
        assert(path::resolved(views[i].path, dir) is None);
    }
}

proof fn lemma_takes_over(
    model: state::TrackerModel,
    rebuilt: Rebuilt,
)
    requires
        tracker::rescanned(model, rebuilt) is Some,
    ensures
        takes_over(
            model,
            rebuilt,
            tracker::rebuilt_model(model, rebuilt, tracker::rescanned(model, rebuilt)->0),
        ),
{
    let after = tracker::rebuilt_model(model, rebuilt, tracker::rescanned(model, rebuilt)->0);
    assert(after.readiness.dom() =~= model.readiness.dom());
}

/// New rules and a new scan for a batch: where the scan can be made they are taken
/// over, the difference is reported without the touched paths, and the watches are
/// to be refreshed. Where it cannot, the tracker keeps what it has, reports the
/// failure and is done with the batch.
pub proof fn rebuild_for_batch_is_taken_over(
    tracker: tracker::TrackerView,
    touched: path_set::PathMap,
    query: Option<Seq<u8>>,
    rebuilt: Rebuilt,
)
    requires
        tracker.phase == tracker::PhaseView::BatchRebuilding(touched, query),
    ensures
        ({
            let step = tracker::stepped(tracker, Input::Rebuilt(rebuilt));
            &&& step.tracker.aux_watches == tracker.aux_watches
            &&& can_scan(rebuilt) ==> {
                &&& takes_over(tracker.model, rebuilt, step.tracker.model)
                &&& step.events == events::diff_events(
                    tracker.model.files,
                    step.tracker.model.files,
                    touched,
                )
                &&& step.tracker.phase == tracker::PhaseView::BatchRefreshing(query)
                &&& step.action == Action::Refresh
            }
            &&& !can_scan(rebuilt) ==> {
                &&& step.tracker.model == tracker.model
                &&& step.events == seq![track::EventView::Error("failed to resolve current dir"@)]
                &&& step.tracker.phase == after_batch(query)
                &&& step.action == action_of(after_batch(query))
            }
        }),
{
    lemma_can_scan(tracker.model, rebuilt);
    if can_scan(rebuilt) {
        lemma_takes_over(tracker.model, rebuilt);
    }
}

/// New rules and a new scan for a query: where the scan can be made they are taken
/// over, the whole difference is reported, and the watches are to be refreshed.
/// Where it cannot, the query is answered from what the tracker has, without an
/// event.
pub proof fn rebuild_for_query_is_taken_over(
    tracker: tracker::TrackerView,
    path: Seq<u8>,
    rebuilt: Rebuilt,
)
    requires
        tracker.phase == tracker::PhaseView::QueryRebuilding(path),
    ensures
        ({
            let step = tracker::stepped(tracker, Input::Rebuilt(rebuilt));
            &&& can_scan(rebuilt) ==> {
                &&& step.tracker.aux_watches == tracker.aux_watches
                &&& takes_over(tracker.model, rebuilt, step.tracker.model)
                &&& step.events == events::diff_events(
                    tracker.model.files,
                    step.tracker.model.files,
                    Map::empty(),
                )
                &&& step.tracker.phase == tracker::PhaseView::QueryRefreshing(path)
                &&& step.action == Action::Refresh
            }
            &&& !can_scan(rebuilt) ==> gives_answer(tracker, path, step) && step.events.len() == 0
        }),
{
    lemma_can_scan(tracker.model, rebuilt);
    if can_scan(rebuilt) {
        lemma_takes_over(tracker.model, rebuilt);
    }
}

/// A query is answered by whether its path is among the tracked files. The way to
/// the path is marked, the tracker waits, and nothing else changes.
pub open spec fn gives_answer(
    tracker: tracker::TrackerView,
    path: Seq<u8>,
    step: tracker::Step,
) -> bool {
    &&& step.action == Action::Answer(tracker.model.files.contains_key(text::components(path)))
    &&& step.tracker == tracker::TrackerView {
        model: state::TrackerModel {
            readiness: state::with_ready(
                tracker.model.readiness,
                path::dir_segments(tracker.model.cwd, path),
            ),
            ..tracker.model
        },
        phase: tracker::PhaseView::Idle,
        ..tracker
    }
}

/// A query for which no batch waits any more is answered without an event where no
/// rebuild is needed, and otherwise asks for the rebuild. A rebuild that fails does
/// not keep it from its answer, and is not reported.
pub proof fn drained_query_is_answered_or_rebuilds(
    tracker: tracker::TrackerView,
    path: Seq<u8>,
    message: String,
)
    ensures
        tracker.phase == tracker::PhaseView::QueryDraining(path) ==> {
            let step = tracker::stepped(tracker, Input::Drained);
            if state::needs_rebuild(tracker.model, path) {
                only_turns(tracker, step, tracker::PhaseView::QueryRebuilding(path))
            } else {
                gives_answer(tracker, path, step) && step.events.len() == 0
            }
        },
        tracker.phase == tracker::PhaseView::QueryRebuilding(path) ==> {
            let step = tracker::stepped(tracker, Input::RebuildFailed(message));
            gives_answer(tracker, path, step) && step.events.len() == 0
        },
{
}

/// A rebuild for a batch that fails is reported, the tracker keeps what it has, and
/// is done with the batch.
pub proof fn failed_rebuild_is_reported(
    tracker: tracker::TrackerView,
    touched: path_set::PathMap,
    query: Option<Seq<u8>>,
    message: String,
)
    requires
        tracker.phase == tracker::PhaseView::BatchRebuilding(touched, query),
    ensures
        ({
            let step = tracker::stepped(tracker, Input::RebuildFailed(message));
            &&& step.tracker == tracker::TrackerView { phase: after_batch(query), ..tracker }
            &&& step.events == seq![track::EventView::Error(message@)]
            &&& step.action == action_of(after_batch(query))
        }),
{
}

/// The watches that a refresh leaves: those that were there and are wanted, and of
/// the wanted ones that were not there the first that were taken up.
pub open spec fn has_refreshed(
    tracker: tracker::TrackerView,
    outcome: Refreshed,
    after: path_set::PathMap,
) -> bool {
    let wanted = aux_watch::wanted(
        tracker.model.repo,
        tracker.model.ignore_files,
        outcome.existing@,
    );
    let missing = path_set::ascending(wanted.remove_keys(tracker.aux_watches.dom()));
    forall|key: Seq<Seq<u8>>| #[trigger]
        after.contains_key(key) == (tracker.aux_watches.contains_key(key) && wanted.contains_key(
            key,
        ) || exists|i: int|
            0 <= i < missing.len() && i < outcome.taken && text::components(
                #[trigger] missing[i],
            ) == key)
}

proof fn lemma_has_refreshed(tracker: tracker::TrackerView, outcome: Refreshed)
    ensures
        has_refreshed(
            tracker,
            outcome,
            tracker::refreshed(tracker, outcome.existing@, outcome.taken as nat).aux_watches,
        ),
{
    let wanted = aux_watch::wanted(
        tracker.model.repo,
        tracker.model.ignore_files,
        outcome.existing@,
    );
    let watch = wanted.remove_keys(tracker.aux_watches.dom());
    let missing = path_set::ascending(watch);
    let kept = tracker.aux_watches.remove_keys(
        tracker.aux_watches.remove_keys(wanted.dom()).dom(),
    );
    let list = aux_watch::first_of(watch, outcome.taken as nat);
    let after = tracker::refreshed(
        tracker,
        outcome.existing@,
        outcome.taken as nat,
    ).aux_watches;
    assert forall|key: Seq<Seq<u8>>| #[trigger]
        after.contains_key(key) == (tracker.aux_watches.contains_key(key) && wanted.contains_key(
            key,
        ) || exists|i: int|
            0 <= i < missing.len() && i < outcome.taken && text::components(
                #[trigger] missing[i],
            ) == key) by {
        laws::with_paths_is_exact(kept, list, key);
        if exists|i: int| path_set::is_listed_at(list, key, i) {
            let i = choose|i: int| path_set::is_listed_at(list, key, i);
            assert(missing[i] == list[i]);
        }
        if exists|i: int|
            0 <= i < missing.len() && i < outcome.taken && text::components(#[trigger] missing[i])
                == key {
            let i = choose|i: int|
                0 <= i < missing.len() && i < outcome.taken && text::components(
                    #[trigger] missing[i],
                ) == key;
            assert(list[i] == missing[i]);
            assert(path_set::is_listed_at(list, key, i));
        }
    }
}

/// Noting a refresh changes the watches alone.
pub proof fn refresh_is_about_watches(tracker: tracker::TrackerView, outcome: Refreshed)
    ensures
        ({
            let after = tracker::refreshed(tracker, outcome.existing@, outcome.taken as nat);
            &&& after.model == tracker.model
            &&& after.phase == tracker.phase
            &&& has_refreshed(tracker, outcome, after.aux_watches)
        }),
{
    lemma_has_refreshed(tracker, outcome);
}

/// What a plan leads to: the watches that are not given up, and the first of those to
/// take up, in their order.
pub proof fn plan_leads_to_its_watches(
    watched: path_set::PathMap,
    unwatch: path_set::PathMap,
    watch: path_set::PathMap,
    n: nat,
    key: Seq<Seq<u8>>,
)
    ensures
        aux_watch::rewatched(watched, unwatch, watch, n).contains_key(key) == (
        watched.contains_key(key) && !unwatch.contains_key(key) || exists|i: int|
            0 <= i < path_set::ascending(watch).len() && i < n && text::components(
                #[trigger] path_set::ascending(watch)[i],
            ) == key),
{
    let all = path_set::ascending(watch);
    let list = aux_watch::first_of(watch, n);
    laws::with_paths_is_exact(watched.remove_keys(unwatch.dom()), list, key);
    if exists|i: int| path_set::is_listed_at(list, key, i) {
        let i = choose|i: int| path_set::is_listed_at(list, key, i);
        assert(all[i] == list[i]);
    }
    if exists|i: int|
        0 <= i < all.len() && i < n && text::components(#[trigger] all[i]) == key {
        let i = choose|i: int|
            0 <= i < all.len() && i < n && text::components(#[trigger] all[i]) == key;
        assert(list[i] == all[i]);
        assert(path_set::is_listed_at(list, key, i));
    }
}

/// A refresh for a batch: the watches are noted, a failure is reported, and the
/// tracker is done with the batch. The files and the rules stay.
pub proof fn refresh_for_batch_is_noted(
    tracker: tracker::TrackerView,
    query: Option<Seq<u8>>,
    outcome: Refreshed,
)
    requires
        tracker.phase == tracker::PhaseView::BatchRefreshing(query),
    ensures
        ({
            let step = tracker::stepped(tracker, Input::Refreshed(outcome));
            &&& step.tracker.model == tracker.model
            &&& has_refreshed(tracker, outcome, step.tracker.aux_watches)
            &&& step.tracker.phase == after_batch(query)
            &&& step.action == action_of(after_batch(query))
            &&& outcome.failure is None ==> step.events.len() == 0
            &&& outcome.failure matches Some(message) ==> step.events
                == seq![track::EventView::Error(message@)]
        }),
{
    lemma_has_refreshed(tracker, outcome);
}

/// A refresh for a query: the watches are noted, a failure is reported, and the
/// query is answered.
pub proof fn refresh_for_query_is_noted(
    tracker: tracker::TrackerView,
    path: Seq<u8>,
    outcome: Refreshed,
)
    requires
        tracker.phase == tracker::PhaseView::QueryRefreshing(path),
    ensures
        ({
            let step = tracker::stepped(tracker, Input::Refreshed(outcome));
            let watching = tracker::TrackerView {
                aux_watches: step.tracker.aux_watches,
                ..tracker
            };
            &&& has_refreshed(tracker, outcome, step.tracker.aux_watches)
            &&& gives_answer(watching, path, step)
            &&& outcome.failure is None ==> step.events.len() == 0
            &&& outcome.failure matches Some(message) ==> step.events
                == seq![track::EventView::Error(message@)]
        }),
{
    lemma_has_refreshed(tracker, outcome);
}

/// The paths in a set are exactly those in the tracked directory that the changes in
/// a list report.
pub open spec fn are_touched(
    model: state::TrackerModel,
    list: Seq<events::FsEventView>,
    touched: path_set::PathMap,
) -> bool {
    forall|key: Seq<Seq<u8>>| #[trigger]
        touched.contains_key(key) == exists|i: int|
            0 <= i < list.len() && laws::event_touches(model, #[trigger] list[i], key)
}

/// A change of the ignore rules is rescanned, whether the batch comes to an idle
/// tracker or is read while a query waits: the tracker lets changes settle, scans
/// anew, takes over exactly what the scan finds under the new rules, reports the
/// difference without the paths that the batch itself reported, refreshes its
/// watches, and only then goes back to the query or to waiting.
pub proof fn rule_change_is_rescanned_also_before_a_query(
    tracker: tracker::TrackerView,
    query: Option<Seq<u8>>,
    list: Vec<FsEvent>,
    rebuilt: Rebuilt,
    outcome: Refreshed,
)
    requires
        takes_batches(tracker, query),
        exists|i: int|
            0 <= i < list@.len() && laws::event_changes_rules(
                tracker.model,
                #[trigger] events::fs_event_views(list@)[i],
            ),
        can_scan(rebuilt),
    ensures
        ({
            let followed = batch_laws::followed(tracker.model, events::fs_event_views(list@));
            let flushed = events::flushed(followed.model);
            let handled = tracker::stepped(tracker, Input::Batch(Ok(list)));
            let settled = tracker::stepped(handled.tracker, Input::Settled);
            let taken = tracker::stepped(settled.tracker, Input::Rebuilt(rebuilt));
            let done = tracker::stepped(taken.tracker, Input::Refreshed(outcome));
            &&& handled.events == followed.events + flushed.events
            &&& handled.action == Action::Settle
            &&& settled.events.len() == 0
            &&& settled.action == Action::Rebuild
            &&& takes_over(handled.tracker.model, rebuilt, taken.tracker.model)
            &&& taken.tracker.model.ignore_filter == rebuilt.ignore_filter
            &&& taken.events == events::diff_events(
                flushed.model.files,
                taken.tracker.model.files,
                batch::batch_handled(tracker.model, events::fs_event_views(list@)).touched,
            )
            &&& are_touched(
                tracker.model,
                events::fs_event_views(list@),
                batch::batch_handled(tracker.model, events::fs_event_views(list@)).touched,
            )
            &&& taken.action == Action::Refresh
            &&& done.tracker.model == taken.tracker.model
            &&& done.action == action_of(after_batch(query))
            &&& done.tracker.phase == after_batch(query)
        }),
{
    let views = events::fs_event_views(list@);
    let touched = batch::batch_handled(tracker.model, views).touched;
    lemma_rule_change_settles(tracker, query, list);
    let handled = tracker::stepped(tracker, Input::Batch(Ok(list)));
    lemma_settle_and_rebuild(handled.tracker, touched, query, rebuilt, outcome);
}

proof fn lemma_rule_change_settles(
    tracker: tracker::TrackerView,
    query: Option<Seq<u8>>,
    list: Vec<FsEvent>,
)
    requires
        takes_batches(tracker, query),
        exists|i: int|
            0 <= i < list@.len() && laws::event_changes_rules(
                tracker.model,
                #[trigger] events::fs_event_views(list@)[i],
            ),
    ensures
        ({
            let views = events::fs_event_views(list@);
            let touched = batch::batch_handled(tracker.model, views).touched;
            let followed = batch_laws::followed(tracker.model, views);
            let flushed = events::flushed(followed.model);
            let handled = tracker::stepped(tracker, Input::Batch(Ok(list)));
            &&& handled.events == followed.events + flushed.events
            &&& handled.action == Action::Settle
            &&& handled.tracker.phase == tracker::PhaseView::BatchSettling(touched, query)
            &&& handled.tracker.model.files == flushed.model.files
            &&& are_touched(tracker.model, views, touched)
        }),
{
    let views = events::fs_event_views(list@);
    let after = batch::batch_handled(tracker.model, views);
    laws::batch_notes_are_exact(tracker.model, views, Seq::empty());
    assert(after.rebuild) by {
        let i = choose|i: int|
            0 <= i < list@.len() && laws::event_changes_rules(tracker.model, #[trigger] views[i]);
        assert(laws::event_changes_rules(tracker.model, views[i]));
    }
    batch_laws::batch_follows_every_change(tracker.model, views);
    batch_is_handled_at_once(tracker, query, Ok(list));
    assert forall|key: Seq<Seq<u8>>| #[trigger] after.touched.contains_key(key) == exists|i: int|
        0 <= i < views.len() && laws::event_touches(tracker.model, #[trigger] views[i], key) by {
        laws::batch_notes_are_exact(tracker.model, views, key);
    }
}

proof fn lemma_settle_and_rebuild(
    tracker: tracker::TrackerView,
    touched: path_set::PathMap,
    query: Option<Seq<u8>>,
    rebuilt: Rebuilt,
    outcome: Refreshed,
)
    requires
        tracker.phase == tracker::PhaseView::BatchSettling(touched, query),
        can_scan(rebuilt),
    ensures
        ({
            let settled = tracker::stepped(tracker, Input::Settled);
            let taken = tracker::stepped(settled.tracker, Input::Rebuilt(rebuilt));
            let done = tracker::stepped(taken.tracker, Input::Refreshed(outcome));
            &&& settled.events.len() == 0
            &&& settled.action == Action::Rebuild
            &&& takes_over(tracker.model, rebuilt, taken.tracker.model)
            &&& taken.events == events::diff_events(
                tracker.model.files,
                taken.tracker.model.files,
                touched,
            )
            &&& taken.action == Action::Refresh
            &&& done.tracker.model == taken.tracker.model
            &&& done.action == action_of(after_batch(query))
            &&& done.tracker.phase == after_batch(query)
        }),
{
    let settled = tracker::stepped(tracker, Input::Settled);
    assert(only_turns(
        tracker,
        settled,
        tracker::PhaseView::BatchRebuilding(touched, query),
    ));
    rebuild_for_batch_is_taken_over(settled.tracker, touched, query, rebuilt);
    let taken = tracker::stepped(settled.tracker, Input::Rebuilt(rebuilt));
    refresh_for_batch_is_noted(taken.tracker, query, outcome);
}

// ---------------------------------------------------------------------------
// Watches outside the repository
// ---------------------------------------------------------------------------
/// The path to watch for an ignore file: none where it lies in the repository, the
/// file itself where it exists, otherwise its parent, and none for the root.
pub proof fn watch_of_ignore_file_is_exact(
    repo: Seq<u8>,
    file: Seq<u8>,
    existing: path_set::PathMap,
)
    ensures
        path::is_within(file, repo) ==> aux_watch::watch_for(repo, file, existing) is None,
        !path::is_within(file, repo) && existing.contains_key(text::components(file))
            ==> aux_watch::watch_for(repo, file, existing) == Some(file),
        !path::is_within(file, repo) && !existing.contains_key(text::components(file))
            ==> aux_watch::watch_for(repo, file, existing) == text::parent_text(file),
{
}

/// The wanted watches are exactly those of the ignore files of the project.
pub proof fn wanted_watches_are_of_the_ignore_files(
    repo: Seq<u8>,
    ignore_files: path_set::PathMap,
    existing: path_set::PathMap,
    key: Seq<Seq<u8>>,
)
    requires
        path_set::is_listable(ignore_files),
    ensures
        aux_watch::wanted(repo, ignore_files, existing).contains_key(key) == exists|file: Seq<u8>|
            ignore_files.contains_key(text::components(file)) && ignore_files[text::components(
                file,
            )] == file && laws::is_watch_of(repo, file, existing, key),
{
    let files = path_set::ascending(ignore_files);
    laws::wanted_is_exact(repo, files, existing, key);
    path_set::ascending_lists(ignore_files);
    if aux_watch::wanted(repo, ignore_files, existing).contains_key(key) {
        let i = choose|i: int|
            0 <= i < files.len() && laws::is_watch_of(repo, #[trigger] files[i], existing, key);
        assert(path_set::has_path(ignore_files, files[i]));
        assert(laws::is_watch_of(repo, files[i], existing, key));
    }
    if exists|file: Seq<u8>|
        ignore_files.contains_key(text::components(file)) && ignore_files[text::components(file)]
            == file && laws::is_watch_of(repo, file, existing, key) {
        let file = choose|file: Seq<u8>|
            ignore_files.contains_key(text::components(file)) && ignore_files[text::components(
                file,
            )] == file && laws::is_watch_of(repo, file, existing, key);
        let i = choose|i: int| path_set::is_listed_at(files, text::components(file), i);
        assert(path_set::has_path(ignore_files, files[i]));
        assert(files[i] == file);
    }
}

} // verus!
