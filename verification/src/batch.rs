//! What a batch of reported changes does to a tracker.

use vstd::prelude::*;

use crate::events;
use crate::events::{flush_pending_rename_from, process_fs_event, EventKind, FsEvent};
use crate::path;
use crate::path::AbsPath;
use crate::path_set;
use crate::path_set::PathSet;
use crate::rules;
use crate::rules::ProbedPath;
use crate::state;
use crate::state::TrackerState;
use crate::text;
use crate::track;
use crate::track::{report, TrackEvent, TrackEventError};

verus! {

/// What is left to do after a batch.
#[derive(Debug)]
pub struct BatchOutcome {
    /// The paths in the tracked directory that the batch reported.
    pub touched: PathSet,
    /// The batch changed what is ignored, so that the state has to be rebuilt.
    pub rebuild: bool,
}

/// A model in the middle of a batch: the events so far, the reported paths in
/// the tracked directory, and whether the state has to be rebuilt.
pub struct BatchModel {
    pub model: state::TrackerModel,
    pub events: Seq<track::EventView>,
    pub touched: path_set::PathMap,
    pub rebuild: bool,
}

/// Whether a change of a path changes what is ignored: the rules were read from
/// it, wherever it lies, or it is an ignore file or a Git exclude or config file
/// of the repository.
pub open spec fn is_rule_change(model: state::TrackerModel, path: Seq<u8>) -> bool {
    ||| path_set::has_path(model.ignore_files, path)
    ||| path::is_within(path, model.repo) && (path::names_ignore_file(path)
        || path::names_git_settings(path))
}

/// A reported path is noted: in the tracked directory it is touched, and where
/// its change changes what is ignored, directories are out of date and the
/// state has to be rebuilt.
pub open spec fn noted(batch: BatchModel, path: Seq<u8>) -> BatchModel {
    let abs = text::joined(batch.model.cwd, path);
    let touched = if path::is_within(abs, batch.model.repo) && path::is_within(
        abs,
        batch.model.cwd,
    ) {
        path_set::with_path(batch.touched, abs)
    } else {
        batch.touched
    };
    if is_rule_change(batch.model, abs) {
        BatchModel {
            model: state::TrackerModel {
                readiness: state::dirtied(batch.model, path),
                ..batch.model
            },
            touched,
            rebuild: true,
            ..batch
        }
    } else {
        BatchModel { touched, ..batch }
    }
}

/// Several reported paths are noted, one after the other.
pub open spec fn each_noted(batch: BatchModel, paths: Seq<rules::ProbedView>) -> BatchModel
    decreases paths.len(),
{
    if paths.len() == 0 {
        batch
    } else {
        noted(each_noted(batch, paths.drop_last()), paths.last().path)
    }
}

/// A reported change is handled: its paths are noted, then it is followed. That
/// a path was only read is of no interest.
pub open spec fn handled(batch: BatchModel, event: events::FsEventView) -> BatchModel {
    if event.kind == EventKind::Access {
        batch
    } else {
        let before = each_noted(batch, event.paths);
        let outcome = events::processed(before.model, event);
        BatchModel { model: outcome.model, events: before.events + outcome.events, ..before }
    }
}

/// Several reported changes are handled, one after the other.
pub open spec fn each_handled(
    model: state::TrackerModel,
    list: Seq<events::FsEventView>,
) -> BatchModel
    decreases list.len(),
{
    if list.len() == 0 {
        BatchModel { model, events: Seq::empty(), touched: Map::empty(), rebuild: false }
    } else {
        handled(each_handled(model, list.drop_last()), list.last())
    }
}

/// A whole batch is handled: after the last change no more moves are awaited.
pub open spec fn batch_handled(
    model: state::TrackerModel,
    list: Seq<events::FsEventView>,
) -> BatchModel {
    let batch = each_handled(model, list);
    let outcome = events::flushed(batch.model);
    BatchModel { model: outcome.model, events: batch.events + outcome.events, ..batch }
}

/// A failed batch is handled: each failure is reported.
pub open spec fn failures_handled(
    model: state::TrackerModel,
    messages: Seq<Seq<char>>,
) -> BatchModel {
    BatchModel {
        model,
        events: messages.map_values(|message: Seq<char>| track::EventView::Error(message)),
        touched: Map::empty(),
        rebuild: false,
    }
}

/// The mathematical counterpart of a list of messages.
pub open spec fn message_views(messages: Seq<String>) -> Seq<Seq<char>> {
    messages.map_values(|message: String| message@)
}

/// A batch of reported changes or of failures to report is handled.
pub open spec fn result_handled(
    model: state::TrackerModel,
    result: Result<Vec<FsEvent>, Vec<String>>,
) -> BatchModel {
    match result {
        Ok(list) => batch_handled(model, events::fs_event_views(list@)),
        Err(messages) => failures_handled(model, message_views(messages@)),
    }
}

/// Notes the paths of a reported change. The result is whether one of them
/// changes what is ignored.
fn note_paths(state: &mut TrackerState, touched: &mut PathSet, paths: &Vec<ProbedPath>) -> (res:
    bool)
    ensures
        forall|batch: BatchModel|
            batch.model == old(state)@ && batch.touched == old(touched)@ ==> {
                let after = #[trigger] each_noted(batch, rules::probed_views(paths@));
                &&& final(state)@ == after.model
                &&& final(touched)@ == after.touched
                &&& after.rebuild == (batch.rebuild || res)
                &&& after.events == batch.events
            },
{
    let ghost list = rules::probed_views(paths@);
    let ghost state0 = state@;
    let ghost touched0 = touched@;
    let mut rebuild: bool = false;
    let mut i: usize = 0;
    proof {
        assert(list.take(0) =~= Seq::<rules::ProbedView>::empty());
    }
    while i < paths.len()
        invariant
            i <= paths.len(),
            list == rules::probed_views(paths@),
            forall|batch: BatchModel|
                batch.model == state0 && batch.touched == touched0 ==> {
                    let after = #[trigger] each_noted(batch, list.take(i as int));
                    &&& state@ == after.model
                    &&& touched@ == after.touched
                    &&& after.rebuild == (batch.rebuild || rebuild)
                    &&& after.events == batch.events
                },
        decreases paths.len() - i,
    {
        let ghost state1 = state@;
        let ghost touched1 = touched@;
        let ghost rebuild1 = rebuild;
        let path: &Vec<u8> = &paths[i].path;
        let abs: AbsPath = AbsPath::new(state.project_path.cwd_path(), path.as_slice());
        let in_repo: bool = abs.is_or_within(state.project_path.repo_path());
        if in_repo && abs.is_or_within(state.project_path.cwd_path()) {
            let fresh: bool = touched.insert(abs.clone());
        }
        if state.ignore_files.contains(&abs) || in_repo && abs.is_ignore_related() {
            state.mark_dirty_for_ignore_change(path.as_slice());
            rebuild = true;
        }
        proof {
            assert(list.take(i + 1).drop_last() == list.take(i as int));
            assert(list.take(i + 1).last() == paths@[i as int]@);
            assert forall|batch: BatchModel|
                batch.model == state0 && batch.touched == touched0 implies {
                let after = #[trigger] each_noted(batch, list.take(i + 1));
                &&& state@ == after.model
                &&& touched@ == after.touched
                &&& after.rebuild == (batch.rebuild || rebuild)
                &&& after.events == batch.events
            } by {
                let before = each_noted(batch, list.take(i as int));
                assert(state1 == before.model);
                assert(touched1 == before.touched);
                assert(before.rebuild == (batch.rebuild || rebuild1));
            }
        }
        i = i + 1;
    }
    assert(list.take(i as int) == list);
    rebuild
}

/// Handles a batch of reported changes, or of failures to report them.
pub fn handle_debounced_result(
    state: &mut TrackerState,
    events: &mut Vec<TrackEvent>,
    debounced_result: &Result<Vec<FsEvent>, Vec<String>>,
) -> (res: BatchOutcome)
    ensures
        final(state)@ == result_handled(old(state)@, *debounced_result).model,
        track::event_views(final(events)@) == track::event_views(old(events)@) + result_handled(
            old(state)@,
            *debounced_result,
        ).events,
        res.touched@ == result_handled(old(state)@, *debounced_result).touched,
        res.rebuild == result_handled(old(state)@, *debounced_result).rebuild,
{
    let ghost before = state@;
    let ghost reported = track::event_views(events@);
    let mut touched: PathSet = PathSet::new();
    let mut rebuild: bool = false;
    match debounced_result {
        Ok(list) => {
            let ghost all = events::fs_event_views(list@);
            let mut i: usize = 0;
            assert(reported + Seq::<track::EventView>::empty() =~= reported);
            while i < list.len()
                invariant
                    i <= list.len(),
                    all == events::fs_event_views(list@),
                    state@ == each_handled(before, all.take(i as int)).model,
                    touched@ == each_handled(before, all.take(i as int)).touched,
                    rebuild == each_handled(before, all.take(i as int)).rebuild,
                    track::event_views(events@) == reported + each_handled(
                        before,
                        all.take(i as int),
                    ).events,
                decreases list.len() - i,
            {
                let event: &FsEvent = &list[i];
                let ghost so_far = each_handled(before, all.take(i as int));
                proof {
                    assert(all.take(i + 1).drop_last() == all.take(i as int));
                    assert(all.take(i + 1).last() == event@);
                }
                if event.kind != EventKind::Access {
                    let ghost mid = each_noted(so_far, event@.paths);
                    if note_paths(state, &mut touched, &event.paths) {
                        rebuild = true;
                    }
                    process_fs_event(state, events, event);
                    proof {
                        let more = events::processed(mid.model, event@).events;
                        assert((reported + so_far.events) + more =~= reported + (so_far.events
                            + more));
                    }
                }
                i = i + 1;
            }
            assert(all.take(i as int) == all);
            let ghost batch = each_handled(before, all);
            flush_pending_rename_from(state, events);
            proof {
                let more = events::flushed(batch.model).events;
                assert((reported + batch.events) + more =~= reported + (batch.events + more));
            }
        },
        Err(messages) => {
            let ghost all = message_views(messages@).map_values(
                |message: Seq<char>| track::EventView::Error(message),
            );
            let mut i: usize = 0;
            assert(reported + all.take(0) =~= reported);
            while i < messages.len()
                invariant
                    i <= messages.len(),
                    all == message_views(messages@).map_values(
                        |message: Seq<char>| track::EventView::Error(message),
                    ),
                    track::event_views(events@) == reported + all.take(i as int),
                decreases messages.len() - i,
            {
                report(
                    events,
                    TrackEvent::Error(TrackEventError { message: messages[i].clone() }),
                );
                assert(reported + all.take(i + 1) =~= (reported + all.take(i as int))
                    + seq![all[i as int]]);
                i = i + 1;
            }
            assert(all.take(i as int) == all);
        },
    }
    BatchOutcome { touched, rebuild }
}

} // verus!
