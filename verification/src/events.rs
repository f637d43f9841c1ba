//! What reported changes of the file system do to the tracked files.

use vstd::prelude::*;

use crate::path;
use crate::path::AbsPath;
use crate::path_set;
use crate::path_set::PathSet;
use crate::rules;
use crate::rules::{is_tracked_file, FileProbe, ProbedPath};
use crate::state;
use crate::state::TrackerState;
use crate::text;
use crate::track;
use crate::track::{report, TrackEvent, TrackEventFile, TrackEventFileMove};

verus! {

/// Which side of a move is reported.
#[derive(Debug, Clone, Copy, PartialEq, Eq, Structural)]
pub enum RenameMode {
    Any,
    To,
    From,
    Both,
    Other,
}

/// What about a file was modified.
#[derive(Debug, Clone, Copy, PartialEq, Eq, Structural)]
pub enum ModifyKind {
    Any,
    Data,
    Metadata,
    Name(RenameMode),
    Other,
}

/// What happened in the file system.
#[derive(Debug, Clone, Copy, PartialEq, Eq, Structural)]
pub enum EventKind {
    Any,
    Access,
    Create,
    Modify(ModifyKind),
    Remove,
    Other,
}

/// A reported change of the file system.
#[derive(Debug)]
pub struct FsEvent {
    pub kind: EventKind,
    pub paths: Vec<ProbedPath>,
}

/// The mathematical counterpart of `FsEvent`.
pub struct FsEventView {
    pub kind: EventKind,
    pub paths: Seq<rules::ProbedView>,
}

impl View for FsEvent {
    type V = FsEventView;

    open spec fn view(&self) -> FsEventView {
        FsEventView { kind: self.kind, paths: rules::probed_views(self.paths@) }
    }
}

/// The mathematical counterpart of a list of reported changes.
pub open spec fn fs_event_views(events: Seq<FsEvent>) -> Seq<FsEventView> {
    events.map_values(|event: FsEvent| event@)
}

/// A model, and the events reported on the way to it.
pub struct Outcome {
    pub model: state::TrackerModel,
    pub events: Seq<track::EventView>,
}

/// The model as it is, without an event.
pub open spec fn unchanged(model: state::TrackerModel) -> Outcome {
    Outcome { model, events: Seq::empty() }
}

/// The model with other tracked files, and one event.
pub open spec fn changed(
    model: state::TrackerModel,
    files: path_set::PathMap,
    event: track::EventView,
) -> Outcome {
    Outcome { model: state::TrackerModel { files, ..model }, events: seq![event] }
}

/// A file moved. It leaves the tracked files under its old path and joins them
/// under its new one if it is tracked there; the event says which of the two
/// held. A file that moved to its own path did not move.
pub open spec fn renamed(
    model: state::TrackerModel,
    from: Seq<u8>,
    to: Seq<u8>,
    probe: rules::ProbeView,
) -> Outcome {
    let left = model.files.remove(text::components(from));
    if text::components(from) == text::components(to) {
        unchanged(model)
    } else if path_set::has_path(model.files, from) {
        if state::tracks(model, to, probe) {
            changed(model, path_set::with_path(left, to), track::EventView::Moved(from, to))
        } else {
            changed(model, left, track::EventView::Removed(from))
        }
    } else {
        if state::tracks(model, to, probe) {
            changed(model, path_set::with_path(model.files, to), track::EventView::Created(to))
        } else {
            unchanged(model)
        }
    }
}

/// A file that is not tracked may have come into being.
pub open spec fn appeared(
    model: state::TrackerModel,
    path: Seq<u8>,
    probe: rules::ProbeView,
) -> Outcome {
    if state::tracks(model, path, probe) && !path_set::has_path(model.files, path) {
        changed(model, path_set::with_path(model.files, path), track::EventView::Created(path))
    } else {
        unchanged(model)
    }
}

/// A change of one path of the repository, other than both sides of a move.
pub open spec fn path_changed(
    model: state::TrackerModel,
    kind: EventKind,
    path: Seq<u8>,
    probe: rules::ProbeView,
) -> Outcome {
    match kind {
        EventKind::Remove => if path_set::has_path(model.files, path) {
            changed(
                model,
                model.files.remove(text::components(path)),
                track::EventView::Removed(path),
            )
        } else {
            unchanged(model)
        },
        EventKind::Create => appeared(model, path, probe),
        EventKind::Modify(ModifyKind::Name(RenameMode::From)) => if path_set::has_path(
            model.files,
            path,
        ) {
            unchanged(state::TrackerModel { pending: model.pending.push(path), ..model })
        } else {
            unchanged(model)
        },
        EventKind::Modify(ModifyKind::Name(RenameMode::To)) => if model.pending.len() > 0 {
            renamed(
                state::TrackerModel { pending: model.pending.drop_first(), ..model },
                model.pending.first(),
                path,
                probe,
            )
        } else {
            appeared(model, path, probe)
        },
        EventKind::Modify(_) => if path_set::has_path(model.files, path) {
            Outcome { model, events: seq![track::EventView::Changed(path)] }
        } else {
            appeared(model, path, probe)
        },
        _ => unchanged(model),
    }
}

/// A change of one path. A path outside the repository is of no interest.
pub open spec fn one_processed(
    model: state::TrackerModel,
    kind: EventKind,
    path: rules::ProbedView,
) -> Outcome {
    let abs = text::joined(model.cwd, path.path);
    if path::is_within(abs, model.repo) {
        path_changed(model, kind, abs, path.probe)
    } else {
        unchanged(model)
    }
}

/// A change of several paths, one after the other.
pub open spec fn each_processed(
    model: state::TrackerModel,
    kind: EventKind,
    paths: Seq<rules::ProbedView>,
) -> Outcome
    decreases paths.len(),
{
    if paths.len() == 0 {
        unchanged(model)
    } else {
        let before = each_processed(model, kind, paths.drop_last());
        let last = one_processed(before.model, kind, paths.last());
        Outcome { model: last.model, events: before.events + last.events }
    }
}

/// Whether a reported change is a move with both its sides.
pub open spec fn is_full_move(event: FsEventView) -> bool {
    &&& event.kind == EventKind::Modify(ModifyKind::Name(RenameMode::Both))
    &&& event.paths.len() >= 2
}

/// A reported change. A move with both its sides is a move from the first path
/// to the second, if both lie in the repository, and drops the moves that are
/// pending; anything else is a change of each of its paths.
pub open spec fn processed(model: state::TrackerModel, event: FsEventView) -> Outcome {
    if is_full_move(event) {
        let settled = state::TrackerModel { pending: Seq::empty(), ..model };
        let from = text::joined(model.cwd, event.paths[0].path);
        let to = text::joined(model.cwd, event.paths[1].path);
        if path::is_within(from, model.repo) && path::is_within(to, model.repo) {
            renamed(settled, from, to, event.paths[1].probe)
        } else {
            unchanged(settled)
        }
    } else {
        each_processed(model, event.kind, event.paths)
    }
}

/// No more moves are awaited: the files that moved away are gone.
pub open spec fn flushed(model: state::TrackerModel) -> Outcome
    decreases model.pending.len(),
{
    if model.pending.len() == 0 {
        unchanged(model)
    } else {
        let path = model.pending.first();
        let rest = flushed(
            state::TrackerModel {
                pending: model.pending.drop_first(),
                files: model.files.remove(text::components(path)),
                ..model
            },
        );
        if path_set::has_path(model.files, path) {
            Outcome {
                model: rest.model,
                events: seq![track::EventView::Removed(path)] + rest.events,
            }
        } else {
            rest
        }
    }
}

/// The events of a change of the ignore rules: the files that are tracked now
/// and were not, then those that were and are not any more, each in ascending
/// order and without the paths to be left out.
pub open spec fn diff_events(
    before: path_set::PathMap,
    after: path_set::PathMap,
    left_out: path_set::PathMap,
) -> Seq<track::EventView> {
    path_set::ascending(after.remove_keys(before.dom().union(left_out.dom()))).map_values(
        |path: Seq<u8>| track::EventView::NowTracked(path),
    ) + path_set::ascending(before.remove_keys(after.dom().union(left_out.dom()))).map_values(
        |path: Seq<u8>| track::EventView::Untracked(path),
    )
}

/// Follows a file that moved.
pub fn handle_rename(
    state: &mut TrackerState,
    events: &mut Vec<TrackEvent>,
    from: &AbsPath,
    to: &AbsPath,
    probe: &FileProbe,
)
    ensures
        final(state)@ == renamed(old(state)@, from@, to@, probe@).model,
        track::event_views(final(events)@) == track::event_views(old(events)@) + renamed(
            old(state)@,
            from@,
            to@,
            probe@,
        ).events,
{
    let ghost reported = track::event_views(events@);
    assert(reported + Seq::<track::EventView>::empty() =~= reported);
    if from == to {
        return;
    }
    let ghost before = state@.files;
    let was_tracked: bool = state.files.remove(from);
    let now_tracked: bool = is_tracked_file(
        &state.project_path,
        to,
        &state.ignore_filter,
        probe,
        state.options.only_source(),
    );
    if now_tracked {
        let fresh: bool = state.files.insert(to.clone());
    }
    if was_tracked {
        if now_tracked {
            report(
                events,
                TrackEvent::Moved(TrackEventFileMove { from: from.clone(), to: to.clone() }),
            );
        } else {
            report(events, TrackEvent::Removed(TrackEventFile::from_path(from)));
        }
    } else {
        assert(before.remove(text::components(from@)) =~= before);
        if now_tracked {
            report(events, TrackEvent::Created(TrackEventFile::from_path(to)));
        }
    }
}

/// Takes up a file that may have come into being.
fn handle_appearance(
    state: &mut TrackerState,
    events: &mut Vec<TrackEvent>,
    path: &AbsPath,
    probe: &FileProbe,
)
    ensures
        final(state)@ == appeared(old(state)@, path@, probe@).model,
        track::event_views(final(events)@) == track::event_views(old(events)@) + appeared(
            old(state)@,
            path@,
            probe@,
        ).events,
{
    let ghost reported = track::event_views(events@);
    assert(reported + Seq::<track::EventView>::empty() =~= reported);
    if is_tracked_file(
        &state.project_path,
        path,
        &state.ignore_filter,
        probe,
        state.options.only_source(),
    ) && state.files.insert(path.clone()) {
        report(events, TrackEvent::Created(TrackEventFile::from_path(path)));
    }
}

/// Follows a change of one path.
fn process_path(
    state: &mut TrackerState,
    events: &mut Vec<TrackEvent>,
    kind: EventKind,
    probed: &ProbedPath,
)
    ensures
        final(state)@ == one_processed(old(state)@, kind, probed@).model,
        track::event_views(final(events)@) == track::event_views(old(events)@) + one_processed(
            old(state)@,
            kind,
            probed@,
        ).events,
{
    let ghost before = state@;
    let ghost reported = track::event_views(events@);
    assert(reported + Seq::<track::EventView>::empty() =~= reported);
    let path: AbsPath = match state.project_path.abs_path_within_repo(probed.path.as_slice()) {
        Some(path) => path,
        None => {
            return;
        },
    };
    match kind {
        EventKind::Remove => {
            if state.files.remove(&path) {
                report(events, TrackEvent::Removed(TrackEventFile::from_path(&path)));
            } else {
                assert(state@.files =~= before.files);
            }
        },
        EventKind::Create => {
            handle_appearance(state, events, &path, &probed.probe);
        },
        EventKind::Modify(ModifyKind::Name(RenameMode::From)) => {
            if state.files.contains(&path) {
                let ghost waiting = state.pending_rename_from@;
                state.pending_rename_from.push_back(path);
                assert(path_set::texts(waiting.push(path)) =~= path_set::texts(waiting).push(path@));
            }
        },
        EventKind::Modify(ModifyKind::Name(RenameMode::To)) => {
            let ghost waiting = state.pending_rename_from@;
            let next: Option<AbsPath> = state.pending_rename_from.pop_front();
            match next {
                Some(from) => {
                    assert(state@.pending =~= before.pending.drop_first());
                    handle_rename(state, events, &from, &path, &probed.probe);
                },
                None => {
                    assert(state@.pending =~= before.pending);
                    handle_appearance(state, events, &path, &probed.probe);
                },
            }
        },
        EventKind::Modify(_) => {
            if state.files.contains(&path) {
                report(events, TrackEvent::Changed(TrackEventFile::from_path(&path)));
            } else {
                handle_appearance(state, events, &path, &probed.probe);
            }
        },
        _ => {},
    }
}

/// Follows a reported change.
pub fn process_fs_event(state: &mut TrackerState, events: &mut Vec<TrackEvent>, event: &FsEvent)
    ensures
        final(state)@ == processed(old(state)@, event@).model,
        track::event_views(final(events)@) == track::event_views(old(events)@) + processed(
            old(state)@,
            event@,
        ).events,
{
    let ghost before = state@;
    let ghost reported = track::event_views(events@);
    let ghost paths = rules::probed_views(event.paths@);
    assert(reported + Seq::<track::EventView>::empty() =~= reported);
    if event.kind == EventKind::Modify(ModifyKind::Name(RenameMode::Both)) && event.paths.len()
        >= 2 {
        state.pending_rename_from.clear();
        assert(state@.pending =~= Seq::<Seq<u8>>::empty());
        assert(paths[0] == event.paths@[0]@);
        assert(paths[1] == event.paths@[1]@);
        let from: Option<AbsPath> = state.project_path.abs_path_within_repo(
            event.paths[0].path.as_slice(),
        );
        let to: Option<AbsPath> = state.project_path.abs_path_within_repo(
            event.paths[1].path.as_slice(),
        );
        if let Some(from) = from {
            if let Some(to) = to {
                handle_rename(state, events, &from, &to, &event.paths[1].probe);
            }
        }
        return;
    }
    let mut i: usize = 0;
    while i < event.paths.len()
        invariant
            i <= event.paths.len(),
            paths == rules::probed_views(event.paths@),
            state@ == each_processed(before, event.kind, paths.take(i as int)).model,
            track::event_views(events@) == reported + each_processed(
                before,
                event.kind,
                paths.take(i as int),
            ).events,
        decreases event.paths.len() - i,
    {
        let ghost so_far = each_processed(before, event.kind, paths.take(i as int));
        proof {
            assert(paths.take(i + 1).drop_last() == paths.take(i as int));
            assert(paths.take(i + 1).last() == event.paths@[i as int]@);
        }
        process_path(state, events, event.kind, &event.paths[i]);
        proof {
            let step = one_processed(so_far.model, event.kind, paths[i as int]);
            assert((reported + so_far.events) + step.events =~= reported + (so_far.events
                + step.events));
        }
        i = i + 1;
    }
    assert(paths.take(i as int) == paths);
}

/// Gives up on the moves that are pending: the files are gone.
pub fn flush_pending_rename_from(state: &mut TrackerState, events: &mut Vec<TrackEvent>)
    ensures
        final(state)@ == flushed(old(state)@).model,
        track::event_views(final(events)@) == track::event_views(old(events)@) + flushed(
            old(state)@,
        ).events,
{
    let ghost before = state@;
    let ghost reported = track::event_views(events@);
    loop
        invariant_except_break
            flushed(state@).model == flushed(before).model,
            track::event_views(events@) + flushed(state@).events == reported + flushed(
                before,
            ).events,
        ensures
            state@ == flushed(before).model,
            track::event_views(events@) == reported + flushed(before).events,
        decreases state.pending_rename_from@.len(),
    {
        let ghost now = state@;
        let ghost sent = track::event_views(events@);
        let next: Option<AbsPath> = state.pending_rename_from.pop_front();
        match next {
            Some(from) => {
                proof {
                    assert(now.pending.first() == from@);
                    assert(state@.pending =~= now.pending.drop_first());
                }
                if state.files.remove(&from) {
                    report(events, TrackEvent::Removed(TrackEventFile::from_path(&from)));
                    proof {
                        let ev = seq![track::EventView::Removed(from@)];
                        assert((sent + ev) + flushed(state@).events =~= sent + (ev + flushed(
                            state@,
                        ).events));
                    }
                }
            },
            None => {
                proof {
                    assert(state@.pending =~= now.pending);
                    assert(now.pending.len() == 0);
                    assert(sent + Seq::<track::EventView>::empty() =~= sent);
                }
                break;
            },
        }
    }
}

/// Reports a change of the ignore rules.
pub fn emit_diff_events(events: &mut Vec<TrackEvent>, before: &PathSet, after: &PathSet)
    ensures
        track::event_views(final(events)@) == track::event_views(old(events)@) + diff_events(
            before@,
            after@,
            Map::empty(),
        ),
{
    emit_diff_events_filtered(events, before, after, &PathSet::new());
}

/// Reports a change of the ignore rules without the paths to be left out.
pub fn emit_diff_events_filtered(
    events: &mut Vec<TrackEvent>,
    before: &PathSet,
    after: &PathSet,
    left_out: &PathSet,
)
    ensures
        track::event_views(final(events)@) == track::event_views(old(events)@) + diff_events(
            before@,
            after@,
            left_out@,
        ),
{
    let ghost reported = track::event_views(events@);
    let now: PathSet = after.without(before, left_out);
    let gone: PathSet = before.without(after, left_out);
    let ghost now_events = path_set::ascending(now@).map_values(
        |path: Seq<u8>| track::EventView::NowTracked(path),
    );
    let ghost gone_events = path_set::ascending(gone@).map_values(
        |path: Seq<u8>| track::EventView::Untracked(path),
    );
    let n: usize = now.len();
    let mut i: usize = 0;
    assert(reported + now_events.take(0) =~= reported);
    while i < n
        invariant
            i <= n,
            n == now.list().len(),
            now.list() == path_set::ascending(now@),
            now_events == path_set::ascending(now@).map_values(
                |path: Seq<u8>| track::EventView::NowTracked(path),
            ),
            track::event_views(events@) == reported + now_events.take(i as int),
        decreases n - i,
    {
        report(events, TrackEvent::NowTracked(TrackEventFile::from_path(now.path_at(i))));
        assert(reported + now_events.take(i + 1) =~= (reported + now_events.take(i as int))
            + seq![now_events[i as int]]);
        i = i + 1;
    }
    assert(now_events.take(i as int) =~= now_events);
    let m: usize = gone.len();
    let mut j: usize = 0;
    assert((reported + now_events) + gone_events.take(0) =~= reported + now_events);
    while j < m
        invariant
            j <= m,
            m == gone.list().len(),
            gone.list() == path_set::ascending(gone@),
            gone_events == path_set::ascending(gone@).map_values(
                |path: Seq<u8>| track::EventView::Untracked(path),
            ),
            track::event_views(events@) == (reported + now_events) + gone_events.take(j as int),
        decreases m - j,
    {
        report(events, TrackEvent::Untracked(TrackEventFile::from_path(gone.path_at(j))));
        assert((reported + now_events) + gone_events.take(j + 1) =~= ((reported + now_events)
            + gone_events.take(j as int)) + seq![gone_events[j as int]]);
        j = j + 1;
    }
    assert(gone_events.take(j as int) =~= gone_events);
    assert((reported + now_events) + gone_events =~= reported + (now_events + gone_events));
}

} // verus!
