//! The course of a running tracker: what it does next, step by step.
//!
//! A tracker waits for something to happen, follows it, and names the action
//! to perform before the next step. It performs nothing itself.

use ignore_files::IgnoreFilter;
use vstd::prelude::*;

use crate::aux_watch;
use crate::aux_watch::{commit_aux_watches, refresh_aux_watches, AuxPlan};
use crate::batch;
use crate::batch::{handle_debounced_result, BatchOutcome};
use crate::events;
use crate::events::{emit_diff_events, emit_diff_events_filtered, FsEvent};
use crate::path;
use crate::path::{AbsPath, PathError};
use crate::path_set;
use crate::path_set::PathSet;
use crate::readiness;
use crate::readiness::SegmentReadiness;
use crate::rules;
use crate::rules::ProbedPath;
use crate::state;
use crate::state::TrackerState;
use crate::track;
use crate::track::{report, TrackEvent, TrackEventError};

verus! {

/// What a tracker is in the middle of.
#[derive(Debug)]
pub enum Phase {
    /// Nothing: it waits for a query, a batch of changes, or the end.
    Idle,
    /// A query waits for changes to settle.
    QuerySettling(AbsPath),
    /// A query waits for the batches that were reported before it.
    QueryDraining(AbsPath),
    /// A batch that changed what is ignored waits for changes to settle, and
    /// behind it perhaps a query.
    BatchSettling(PathSet, Option<AbsPath>),
    /// Such a batch waits for new rules and a new scan.
    BatchRebuilding(PathSet, Option<AbsPath>),
    /// Such a batch waits for the watches outside the repository.
    BatchRefreshing(Option<AbsPath>),
    /// A query waits for new rules and a new scan.
    QueryRebuilding(AbsPath),
    /// A query waits for the watches outside the repository.
    QueryRefreshing(AbsPath),
    /// The tracker has come to its end.
    Stopped,
}

/// New rules and a new scan.
#[derive(Debug)]
pub struct Rebuilt {
    pub ignore_filter: IgnoreFilter,
    pub ignore_files: PathSet,
    pub candidates: Vec<ProbedPath>,
    pub current_dir: Option<AbsPath>,
}

/// What came of the plan for the watches outside the repository: which ignore
/// files were seen to exist when it was made, how many of its watches were taken
/// up, and why the next one was not.
#[derive(Debug)]
pub struct Refreshed {
    pub existing: PathSet,
    pub taken: usize,
    pub failure: Option<String>,
}

/// What happened.
#[derive(Debug)]
pub enum Input {
    /// The tracker is to stop.
    Stop,
    /// Somebody asks whether a path is tracked.
    Query(AbsPath),
    /// Nobody will ask any more.
    QueriesClosed,
    /// Changes were reported, or failures to report them.
    Batch(Result<Vec<FsEvent>, Vec<String>>),
    /// No change will be reported any more.
    BatchesClosed,
    /// The time for changes to settle is over.
    Settled,
    /// No batch is waiting.
    Drained,
    /// New rules and a new scan are there.
    Rebuilt(Rebuilt),
    /// The rules or the scan failed.
    RebuildFailed(String),
    /// The watches outside the repository were refreshed as far as possible.
    Refreshed(Refreshed),
}

/// What to do before the next step.
#[derive(Debug, Clone, Copy, PartialEq, Eq, Structural)]
pub enum Action {
    /// Wait for a query, a batch or the end.
    Wait,
    /// Wait for the settle delay.
    Settle,
    /// Take the next batch, if one is waiting.
    Poll,
    /// Read the ignore rules and scan the tracked directory.
    Rebuild,
    /// Refresh the watches outside the repository.
    Refresh,
    /// Answer the query, then wait.
    Answer(bool),
    /// Stop.
    Stop,
}

/// The mathematical counterpart of `Phase`.
pub enum PhaseView {
    Idle,
    QuerySettling(Seq<u8>),
    QueryDraining(Seq<u8>),
    BatchSettling(path_set::PathMap, Option<Seq<u8>>),
    BatchRebuilding(path_set::PathMap, Option<Seq<u8>>),
    BatchRefreshing(Option<Seq<u8>>),
    QueryRebuilding(Seq<u8>),
    QueryRefreshing(Seq<u8>),
    Stopped,
}

/// The text of a path that may be missing.
pub open spec fn query_text(query: Option<AbsPath>) -> Option<Seq<u8>> {
    match query {
        Some(path) => Some(path@),
        None => None,
    }
}

impl View for Phase {
    type V = PhaseView;

    open spec fn view(&self) -> PhaseView {
        match self {
            Phase::Idle => PhaseView::Idle,
            Phase::QuerySettling(path) => PhaseView::QuerySettling(path@),
            Phase::QueryDraining(path) => PhaseView::QueryDraining(path@),
            Phase::BatchSettling(touched, query) => PhaseView::BatchSettling(
                touched@,
                query_text(*query),
            ),
            Phase::BatchRebuilding(touched, query) => PhaseView::BatchRebuilding(
                touched@,
                query_text(*query),
            ),
            Phase::BatchRefreshing(query) => PhaseView::BatchRefreshing(query_text(*query)),
            Phase::QueryRebuilding(path) => PhaseView::QueryRebuilding(path@),
            Phase::QueryRefreshing(path) => PhaseView::QueryRefreshing(path@),
            Phase::Stopped => PhaseView::Stopped,
        }
    }
}

/// A running tracker.
#[derive(Debug)]
pub struct Tracker {
    /// What it knows of the project.
    pub state: TrackerState,
    /// The paths that it watches outside the repository.
    pub aux_watches: PathSet,
    /// What it is in the middle of.
    pub phase: Phase,
}

/// The mathematical counterpart of `Tracker`.
pub struct TrackerView {
    pub model: state::TrackerModel,
    pub aux_watches: path_set::PathMap,
    pub phase: PhaseView,
}

impl View for Tracker {
    type V = TrackerView;

    open spec fn view(&self) -> TrackerView {
        TrackerView {
            model: self.state@,
            aux_watches: self.aux_watches@,
            phase: self.phase@,
        }
    }
}

/// A step of a tracker: where it leads, the events on the way, and the action
/// to perform next.
pub struct Step {
    pub tracker: TrackerView,
    pub events: Seq<track::EventView>,
    pub action: Action,
}

/// The action that a phase waits for the end of.
pub open spec fn awaited(phase: PhaseView) -> Action {
    match phase {
        PhaseView::Idle => Action::Wait,
        PhaseView::QuerySettling(path) => Action::Settle,
        PhaseView::QueryDraining(path) => Action::Poll,
        PhaseView::BatchSettling(touched, query) => Action::Settle,
        PhaseView::BatchRebuilding(touched, query) => Action::Rebuild,
        PhaseView::BatchRefreshing(query) => Action::Refresh,
        PhaseView::QueryRebuilding(path) => Action::Rebuild,
        PhaseView::QueryRefreshing(path) => Action::Refresh,
        PhaseView::Stopped => Action::Stop,
    }
}

/// The tracker turns to another phase, with events.
pub open spec fn turned(
    tracker: TrackerView,
    phase: PhaseView,
    events: Seq<track::EventView>,
) -> Step {
    Step { tracker: TrackerView { phase, ..tracker }, events, action: awaited(phase) }
}

/// Where a batch leads when nothing is left to do for it: back to the query
/// that it came before, or to waiting.
pub open spec fn resumed(query: Option<Seq<u8>>) -> PhaseView {
    match query {
        Some(path) => PhaseView::QueryDraining(path),
        None => PhaseView::Idle,
    }
}

/// A query is answered: the directories on the way to the path are up to date,
/// and the answer is whether the path is among the tracked files.
pub open spec fn answered(
    tracker: TrackerView,
    path: Seq<u8>,
    events: Seq<track::EventView>,
) -> Step {
    Step {
        tracker: TrackerView {
            model: state::TrackerModel {
                readiness: state::with_ready(
                    tracker.model.readiness,
                    path::dir_segments(tracker.model.cwd, path),
                ),
                ..tracker.model
            },
            phase: PhaseView::Idle,
            ..tracker
        },
        events,
        action: Action::Answer(path_set::has_path(tracker.model.files, path)),
    }
}

/// A batch is handled, perhaps with a query behind it.
pub open spec fn batch_taken(
    tracker: TrackerView,
    query: Option<Seq<u8>>,
    result: Result<Vec<FsEvent>, Vec<String>>,
) -> Step {
    let after = batch::result_handled(tracker.model, result);
    turned(
        TrackerView { model: after.model, ..tracker },
        if after.rebuild {
            PhaseView::BatchSettling(after.touched, query)
        } else {
            resumed(query)
        },
        after.events,
    )
}

/// The files that a new scan finds tracked, if the scan did not fail.
pub open spec fn rescanned(model: state::TrackerModel, rebuilt: Rebuilt) -> Option<
    path_set::PathMap,
> {
    state::scanned(
        model.cwd,
        rules::rule_verdicts(rebuilt.ignore_filter),
        model.options.only_source,
        query_text(rebuilt.current_dir),
        rules::probed_views(rebuilt.candidates@),
    )
}

/// The model under new rules.
pub open spec fn rebuilt_model(
    model: state::TrackerModel,
    rebuilt: Rebuilt,
    files: path_set::PathMap,
) -> state::TrackerModel {
    state::TrackerModel {
        ignore_filter: rebuilt.ignore_filter,
        files,
        ignore_files: rebuilt.ignore_files@,
        readiness: readiness::set_under(model.readiness, None, SegmentReadiness::Ready),
        pending: Seq::empty(),
        ..model
    }
}

/// The tracker once its watches outside the repository were refreshed: with the
/// given ignore files in existence, the watches that are not wanted were given up,
/// and the first of those that are wanted and missing were taken up.
pub open spec fn refreshed(
    tracker: TrackerView,
    existing: path_set::PathMap,
    taken: nat,
) -> TrackerView {
    let wanted = aux_watch::wanted(tracker.model.repo, tracker.model.ignore_files, existing);
    TrackerView {
        aux_watches: aux_watch::rewatched(
            tracker.aux_watches,
            tracker.aux_watches.remove_keys(wanted.dom()),
            wanted.remove_keys(tracker.aux_watches.dom()),
            taken,
        ),
        ..tracker
    }
}

/// The event of a failure, if there was one.
pub open spec fn failure_events(failure: Option<String>) -> Seq<track::EventView> {
    match failure {
        Some(message) => seq![track::EventView::Error(message@)],
        None => Seq::empty(),
    }
}

/// What a tracker does when something happens. Anything that its phase does not
/// wait for leaves it as it is.
pub open spec fn stepped(tracker: TrackerView, input: Input) -> Step {
    let none = Seq::<track::EventView>::empty();
    match (tracker.phase, input) {
        (PhaseView::Idle, Input::Stop) => turned(tracker, PhaseView::Stopped, none),
        (PhaseView::Idle, Input::BatchesClosed) => turned(tracker, PhaseView::Stopped, none),
        (PhaseView::Idle, Input::Query(path)) => turned(
            tracker,
            PhaseView::QuerySettling(path@),
            none,
        ),
        (PhaseView::Idle, Input::Batch(result)) => batch_taken(tracker, None, result),
        (PhaseView::QuerySettling(path), Input::Settled) => turned(
            tracker,
            PhaseView::QueryDraining(path),
            none,
        ),
        (PhaseView::QueryDraining(path), Input::Batch(result)) => batch_taken(
            tracker,
            Some(path),
            result,
        ),
        (PhaseView::QueryDraining(path), Input::Drained) => if state::needs_rebuild(
            tracker.model,
            path,
        ) {
            turned(tracker, PhaseView::QueryRebuilding(path), none)
        } else {
            answered(tracker, path, none)
        },
        (PhaseView::BatchSettling(touched, query), Input::Settled) => turned(
            tracker,
            PhaseView::BatchRebuilding(touched, query),
            none,
        ),
        (PhaseView::BatchRebuilding(touched, query), Input::Rebuilt(rebuilt)) => match rescanned(
            tracker.model,
            rebuilt,
        ) {
            Some(files) => turned(
                TrackerView { model: rebuilt_model(tracker.model, rebuilt, files), ..tracker },
                PhaseView::BatchRefreshing(query),
                events::diff_events(tracker.model.files, files, touched),
            ),
            None => turned(
                tracker,
                resumed(query),
                seq![track::EventView::Error("failed to resolve current dir"@)],
            ),
        },
        (PhaseView::BatchRebuilding(touched, query), Input::RebuildFailed(message)) => turned(
            tracker,
            resumed(query),
            seq![track::EventView::Error(message@)],
        ),
        (PhaseView::BatchRefreshing(query), Input::Refreshed(outcome)) => turned(
            refreshed(tracker, outcome.existing@, outcome.taken as nat),
            resumed(query),
            failure_events(outcome.failure),
        ),
        (PhaseView::QueryRebuilding(path), Input::Rebuilt(rebuilt)) => match rescanned(
            tracker.model,
            rebuilt,
        ) {
            Some(files) => turned(
                TrackerView { model: rebuilt_model(tracker.model, rebuilt, files), ..tracker },
                PhaseView::QueryRefreshing(path),
                events::diff_events(tracker.model.files, files, Map::empty()),
            ),
            None => answered(tracker, path, none),
        },
        (PhaseView::QueryRebuilding(path), Input::RebuildFailed(message)) => answered(
            tracker,
            path,
            none,
        ),
        (PhaseView::QueryRefreshing(path), Input::Refreshed(outcome)) => answered(
            refreshed(tracker, outcome.existing@, outcome.taken as nat),
            path,
            failure_events(outcome.failure),
        ),
        _ => turned(tracker, tracker.phase, none),
    }
}

/// Reports a failure.
fn report_failure(events: &mut Vec<TrackEvent>, message: String)
    ensures
        track::event_views(final(events)@) == track::event_views(old(events)@)
            + seq![track::EventView::Error(message@)],
{
    report(events, TrackEvent::Error(TrackEventError { message }));
}

impl Tracker {
    /// A tracker that has done nothing yet.
    pub fn new(state: TrackerState, aux_watches: PathSet) -> (res: Tracker)
        ensures
            res@ == (TrackerView {
                model: state@,
                aux_watches: aux_watches@,
                phase: PhaseView::Idle,
            }),
    {
        Tracker { state, aux_watches, phase: Phase::Idle }
    }

    /// Where a batch leads when nothing is left to do for it.
    fn resume(&mut self, query: Option<AbsPath>) -> (action: Action)
        ensures
            final(self)@ == (TrackerView { phase: resumed(query_text(query)), ..old(self)@ }),
            action == awaited(resumed(query_text(query))),
    {
        match query {
            Some(path) => {
                self.phase = Phase::QueryDraining(path);
                Action::Poll
            },
            None => {
                self.phase = Phase::Idle;
                Action::Wait
            },
        }
    }

    /// Answers a query.
    fn answer(&mut self, path: &AbsPath) -> (action: Action)
        ensures
            final(self)@ == answered(old(self)@, path@, Seq::empty()).tracker,
            action == answered(old(self)@, path@, Seq::empty()).action,
    {
        self.state.mark_path_ready(path);
        self.phase = Phase::Idle;
        Action::Answer(self.state.files.contains(path))
    }

    /// Handles a batch, perhaps with a query behind it.
    fn take_batch(
        &mut self,
        events: &mut Vec<TrackEvent>,
        query: Option<AbsPath>,
        result: &Result<Vec<FsEvent>, Vec<String>>,
    ) -> (action: Action)
        ensures
            final(self)@ == batch_taken(old(self)@, query_text(query), *result).tracker,
            action == batch_taken(old(self)@, query_text(query), *result).action,
            track::event_views(final(events)@) == track::event_views(old(events)@) + batch_taken(
                old(self)@,
                query_text(query),
                *result,
            ).events,
    {
        let outcome: BatchOutcome = handle_debounced_result(&mut self.state, events, result);
        if outcome.rebuild {
            self.phase = Phase::BatchSettling(outcome.touched, query);
            Action::Settle
        } else {
            self.resume(query)
        }
    }

    /// Takes over new rules and a new scan. The results are the files that were
    /// tracked before and those that are now.
    fn rebuild(&mut self, rebuilt: Rebuilt) -> (res: Result<(PathSet, PathSet), PathError>)
        ensures
            match rescanned(old(self)@.model, rebuilt) {
                Some(files) => {
                    &&& res matches Ok(sets) && sets.0@ == old(self)@.model.files && sets.1@
                        == files
                    &&& final(self)@ == (TrackerView {
                        model: rebuilt_model(old(self)@.model, rebuilt, files),
                        ..old(self)@
                    })
                },
                None => {
                    &&& res matches Err(err) && err == PathError::CurrentDir
                    &&& final(self)@ == old(self)@
                },
            },
    {
        let Rebuilt { ignore_filter, ignore_files, candidates, current_dir } = rebuilt;
        let dir: Option<&AbsPath> = match &current_dir {
            Some(dir) => Some(dir),
            None => None,
        };
        self.state.rebuild(ignore_filter, ignore_files, &candidates, dir)
    }

    /// Notes how far the watches outside the repository were refreshed.
    pub fn refresh(&mut self, existing: &PathSet, taken: usize)
        ensures
            final(self)@ == refreshed(old(self)@, existing@, taken as nat),
    {
        let plan: AuxPlan = refresh_aux_watches(&self.state, existing, &self.aux_watches);
        commit_aux_watches(&mut self.aux_watches, &plan, taken);
    }

    /// Takes one step.
    pub fn step(&mut self, events: &mut Vec<TrackEvent>, input: Input) -> (action: Action)
        ensures
            final(self)@ == stepped(old(self)@, input).tracker,
            action == stepped(old(self)@, input).action,
            track::event_views(final(events)@) == track::event_views(old(events)@) + stepped(
                old(self)@,
                input,
            ).events,
    {
        let ghost before = self@;
        let ghost reported = track::event_views(events@);
        assert(reported + Seq::<track::EventView>::empty() =~= reported);
        let mut phase: Phase = Phase::Idle;
        std::mem::swap(&mut phase, &mut self.phase);
        match (phase, input) {
            (Phase::Idle, Input::Stop) => {
                self.phase = Phase::Stopped;
                Action::Stop
            },
            (Phase::Idle, Input::BatchesClosed) => {
                self.phase = Phase::Stopped;
                Action::Stop
            },
            (Phase::Idle, Input::Query(path)) => {
                self.phase = Phase::QuerySettling(path);
                Action::Settle
            },
            (Phase::Idle, Input::Batch(result)) => self.take_batch(events, None, &result),
            (Phase::QuerySettling(path), Input::Settled) => {
                self.phase = Phase::QueryDraining(path);
                Action::Poll
            },
            (Phase::QueryDraining(path), Input::Batch(result)) => self.take_batch(
                events,
                Some(path),
                &result,
            ),
            (Phase::QueryDraining(path), Input::Drained) => {
                if self.state.needs_rebuild_for_query(&path) {
                    self.phase = Phase::QueryRebuilding(path);
                    Action::Rebuild
                } else {
                    self.answer(&path)
                }
            },
            (Phase::BatchSettling(touched, query), Input::Settled) => {
                self.phase = Phase::BatchRebuilding(touched, query);
                Action::Rebuild
            },
            (Phase::BatchRebuilding(touched, query), Input::Rebuilt(rebuilt)) => {
                match self.rebuild(rebuilt) {
                    Ok((old_files, new_files)) => {
                        emit_diff_events_filtered(events, &old_files, &new_files, &touched);
                        self.phase = Phase::BatchRefreshing(query);
                        Action::Refresh
                    },
                    Err(err) => {
                        report_failure(events, err.message());
                        self.resume(query)
                    },
                }
            },
            (Phase::BatchRebuilding(touched, query), Input::RebuildFailed(message)) => {
                report_failure(events, message);
                self.resume(query)
            },
            (Phase::BatchRefreshing(query), Input::Refreshed(outcome)) => {
                self.refresh(&outcome.existing, outcome.taken);
                if let Some(message) = outcome.failure {
                    report_failure(events, message);
                }
                self.resume(query)
            },
            (Phase::QueryRebuilding(path), Input::Rebuilt(rebuilt)) => {
                match self.rebuild(rebuilt) {
                    Ok((old_files, new_files)) => {
                        emit_diff_events(events, &old_files, &new_files);
                        self.phase = Phase::QueryRefreshing(path);
                        Action::Refresh
                    },
                    Err(_) => self.answer(&path),
                }
            },
            (Phase::QueryRebuilding(path), Input::RebuildFailed(_)) => self.answer(&path),
            (Phase::QueryRefreshing(path), Input::Refreshed(outcome)) => {
                self.refresh(&outcome.existing, outcome.taken);
                if let Some(message) = outcome.failure {
                    report_failure(events, message);
                }
                self.answer(&path)
            },
            (phase, _) => {
                let action: Action = phase.action();
                self.phase = phase;
                action
            },
        }
    }
}

impl Phase {
    /// The action that the phase waits for the end of.
    pub fn action(&self) -> (action: Action)
        ensures
            action == awaited(self@),
    {
        match self {
            Phase::Idle => Action::Wait,
            Phase::QuerySettling(_) => Action::Settle,
            Phase::QueryDraining(_) => Action::Poll,
            Phase::BatchSettling(_, _) => Action::Settle,
            Phase::BatchRebuilding(_, _) => Action::Rebuild,
            Phase::BatchRefreshing(_) => Action::Refresh,
            Phase::QueryRebuilding(_) => Action::Rebuild,
            Phase::QueryRefreshing(_) => Action::Refresh,
            Phase::Stopped => Action::Stop,
        }
    }
}

} // verus!
