//! What the mathematical counterparts of the values say of them: each field for
//! itself, and each item of a list in its place.

use vstd::prelude::*;
use vstd::std_specs::cmp::{PartialEqSpec, PartialOrdSpec};

use crate::batch;
use crate::events;
use crate::events::FsEvent;
use crate::order;
use crate::path;
use crate::path::{AbsDirPath, AbsPath};
use crate::path_set;
use crate::rules;
use crate::rules::{Glob, ProbedPath, RuleMatch};
use crate::state::TrackerState;
use crate::text;
use crate::track;
use crate::track::TrackEvent;
use crate::tracker;
use crate::tracker::{Phase, Tracker};

verus! {

/// The counterparts of a rule, a verdict and a probed path have their fields.
pub proof fn probes_are_seen_as_they_are(glob: Glob, dir: Vec<u8>, probed: ProbedPath)
    ensures
        glob.from is None ==> glob@.from is None,
        glob.from matches Some(from) ==> glob@.from == Some(from@),
        glob@.base == glob.base@,
        glob@.pattern == glob.pattern@,
        RuleMatch::Unmatched@ == rules::RuleVerdict::Unmatched,
        RuleMatch::Whitelist@ == rules::RuleVerdict::Whitelist,
        RuleMatch::Ignore(None)@ == rules::RuleVerdict::Ignore(None),
        RuleMatch::Ignore(Some(dir))@ == rules::RuleVerdict::Ignore(Some(dir@)),
        probed@.path == probed.path@,
        probed@.probe.is_file == probed.probe.is_file,
        probed@.probe.is_source == probed.probe.is_source,
        probed@.probe.verdict == probed.probe.rule_match@,
{
}

/// The counterpart of a reported change has its kind and its paths.
pub proof fn changes_are_seen_as_they_are(event: FsEvent)
    ensures
        event@.kind == event.kind,
        event@.paths.len() == event.paths@.len(),
        forall|i: int| 0 <= i < event.paths@.len() ==> #[trigger] event@.paths[i] == event.paths@[i]@,
{
}

/// The counterparts of lists have the counterpart of each item in its place.
pub proof fn lists_are_seen_item_by_item(
    probed: Seq<ProbedPath>,
    changes: Seq<FsEvent>,
    told: Seq<TrackEvent>,
    messages: Seq<String>,
    paths: Seq<AbsPath>,
    dirs: Seq<AbsDirPath>,
    bytes: Seq<Vec<u8>>,
)
    ensures
        rules::probed_views(probed).len() == probed.len(),
        forall|i: int|
            0 <= i < probed.len() ==> #[trigger] rules::probed_views(probed)[i] == probed[i]@,
        events::fs_event_views(changes).len() == changes.len(),
        forall|i: int|
            0 <= i < changes.len() ==> #[trigger] events::fs_event_views(changes)[i] == changes[i]@,
        track::event_views(told).len() == told.len(),
        forall|i: int| 0 <= i < told.len() ==> #[trigger] track::event_views(told)[i] == told[i]@,
        batch::message_views(messages).len() == messages.len(),
        forall|i: int|
            0 <= i < messages.len() ==> #[trigger] batch::message_views(messages)[i]
                == messages[i]@,
        path_set::texts(paths).len() == paths.len(),
        forall|i: int| 0 <= i < paths.len() ==> #[trigger] path_set::texts(paths)[i] == paths[i]@,
        path::dir_texts(dirs).len() == dirs.len(),
        forall|i: int| 0 <= i < dirs.len() ==> #[trigger] path::dir_texts(dirs)[i] == dirs[i]@,
        order::byte_views(bytes).len() == bytes.len(),
        forall|i: int| 0 <= i < bytes.len() ==> #[trigger] order::byte_views(bytes)[i] == bytes[i]@,
{
}

/// The counterpart of an event is of its kind and has its paths or its message.
pub proof fn events_are_seen_as_they_are(event: TrackEvent)
    ensures
        match event {
            TrackEvent::InitialTracked(file) => event@ == track::EventView::InitialTracked(
                file.path@,
            ),
            TrackEvent::NowTracked(file) => event@ == track::EventView::NowTracked(file.path@),
            TrackEvent::Untracked(file) => event@ == track::EventView::Untracked(file.path@),
            TrackEvent::Created(file) => event@ == track::EventView::Created(file.path@),
            TrackEvent::Changed(file) => event@ == track::EventView::Changed(file.path@),
            TrackEvent::Removed(file) => event@ == track::EventView::Removed(file.path@),
            TrackEvent::Moved(places) => event@ == track::EventView::Moved(
                places.from@,
                places.to@,
            ),
            TrackEvent::Error(error) => event@ == track::EventView::Error(error.message@),
        },
{
}

/// The counterpart of a state has its fields.
pub proof fn states_are_seen_as_they_are(state: TrackerState)
    ensures
        state@.cwd == state.project_path.cwd(),
        state@.repo == state.project_path.repo(),
        state@.options == state.options,
        state@.ignore_filter == state.ignore_filter,
        state@.files == state.files@,
        state@.ignore_files == state.ignore_files@,
        state@.readiness == state.segment_readiness@,
        state@.pending.len() == state.pending_rename_from@.len(),
        forall|i: int|
            0 <= i < state.pending_rename_from@.len() ==> #[trigger] state@.pending[i]
                == state.pending_rename_from@[i]@,
{
}

/// The counterpart of a tracker has its fields, and that of a phase is of its kind.
pub proof fn trackers_are_seen_as_they_are(tracker: Tracker)
    ensures
        tracker@.model == tracker.state@,
        tracker@.aux_watches == tracker.aux_watches@,
        tracker@.phase == tracker.phase@,
        match tracker.phase {
            Phase::Idle => tracker@.phase is Idle,
            Phase::QuerySettling(path) => tracker@.phase == tracker::PhaseView::QuerySettling(
                path@,
            ),
            Phase::QueryDraining(path) => tracker@.phase == tracker::PhaseView::QueryDraining(
                path@,
            ),
            Phase::QueryRebuilding(path) => tracker@.phase == tracker::PhaseView::QueryRebuilding(
                path@,
            ),
            Phase::QueryRefreshing(path) => tracker@.phase == tracker::PhaseView::QueryRefreshing(
                path@,
            ),
            Phase::BatchSettling(touched, query) => tracker@.phase
                == tracker::PhaseView::BatchSettling(touched@, tracker::query_text(query)),
            Phase::BatchRebuilding(touched, query) => tracker@.phase
                == tracker::PhaseView::BatchRebuilding(touched@, tracker::query_text(query)),
            Phase::BatchRefreshing(query) => tracker@.phase == tracker::PhaseView::BatchRefreshing(
                tracker::query_text(query),
            ),
            Phase::Stopped => tracker@.phase is Stopped,
        },
{
}

/// Two paths are equal exactly where they have the same components, and one is less
/// than another exactly where its components are.
pub proof fn paths_compare_by_components(a: AbsPath, b: AbsPath, x: AbsDirPath, y: AbsDirPath)
    ensures
        a.eq_spec(&b) == (text::components(a@) == text::components(b@)),
        x.eq_spec(&y) == (text::components(x@) == text::components(y@)),
        a.partial_cmp_spec(&b) == Some(std::cmp::Ordering::Less) <==> order::parts_less(
            text::components(a@),
            text::components(b@),
        ),
        a.partial_cmp_spec(&b) == Some(std::cmp::Ordering::Equal) <==> text::components(a@)
            == text::components(b@),
        a.partial_cmp_spec(&b) == Some(std::cmp::Ordering::Greater) <==> order::parts_less(
            text::components(b@),
            text::components(a@),
        ),
{
    let p = text::components(a@);
    let q = text::components(b@);
    order::parts_less_total(p, q);
    order::parts_less_irreflexive(p);
    if order::parts_less(p, q) {
        order::parts_less_asymmetric(p, q);
    }
}

/// The text of a path or a directory that may be missing is missing where it is, and
/// otherwise its own.
pub proof fn missing_paths_have_no_text(path: AbsPath, dir: Vec<u8>)
    ensures
        tracker::query_text(None) is None,
        tracker::query_text(Some(path)) == Some(path@),
        path::optional_text(None) is None,
        path::optional_text(Some(&path)) == Some(path@),
        rules::optional_dir(None) is None,
        rules::optional_dir(Some(dir)) == Some(dir@),
{
}

} // verus!
