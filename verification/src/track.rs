//! The events that a tracker reports, and what they say of the tracked files.

use vstd::prelude::*;

use crate::path::AbsPath;
use crate::path_set;
use crate::text;

verus! {

/// What happened to the files that are tracked.
#[derive(Debug, Clone, PartialEq, Eq)]
pub enum TrackEvent {
    /// The file was tracked when the tracker started.
    InitialTracked(TrackEventFile),
    /// A change of the ignore rules made the file tracked.
    NowTracked(TrackEventFile),
    /// A change of the ignore rules made the file untracked.
    Untracked(TrackEventFile),
    /// A tracked file came into being.
    Created(TrackEventFile),
    /// A tracked file changed.
    Changed(TrackEventFile),
    /// A tracked file went away.
    Removed(TrackEventFile),
    /// A tracked file moved to another place where it is tracked.
    Moved(TrackEventFileMove),
    /// The tracker failed at something and goes on.
    Error(TrackEventError),
}

/// The file that an event speaks of.
#[derive(Debug, Clone, PartialEq, Eq)]
pub struct TrackEventFile {
    pub path: AbsPath,
}

/// The two places of a file that moved.
#[derive(Debug, Clone, PartialEq, Eq)]
pub struct TrackEventFileMove {
    pub from: AbsPath,
    pub to: AbsPath,
}

/// What the tracker failed at.
#[derive(Debug, Clone, PartialEq, Eq)]
pub struct TrackEventError {
    pub message: String,
}

/// The mathematical counterpart of `TrackEvent`, with the texts of the paths.
pub enum EventView {
    InitialTracked(Seq<u8>),
    NowTracked(Seq<u8>),
    Untracked(Seq<u8>),
    Created(Seq<u8>),
    Changed(Seq<u8>),
    Removed(Seq<u8>),
    Moved(Seq<u8>, Seq<u8>),
    Error(Seq<char>),
}

impl View for TrackEvent {
    type V = EventView;

    open spec fn view(&self) -> EventView {
        match self {
            TrackEvent::InitialTracked(file) => EventView::InitialTracked(file.path@),
            TrackEvent::NowTracked(file) => EventView::NowTracked(file.path@),
            TrackEvent::Untracked(file) => EventView::Untracked(file.path@),
            TrackEvent::Created(file) => EventView::Created(file.path@),
            TrackEvent::Changed(file) => EventView::Changed(file.path@),
            TrackEvent::Removed(file) => EventView::Removed(file.path@),
            TrackEvent::Moved(places) => EventView::Moved(places.from@, places.to@),
            TrackEvent::Error(error) => EventView::Error(error.message@),
        }
    }
}

/// The mathematical counterpart of a list of events.
pub open spec fn event_views(events: Seq<TrackEvent>) -> Seq<EventView> {
    events.map_values(|event: TrackEvent| event@)
}

/// What one more event adds to the counterpart of a list.
pub proof fn event_views_push(events: Seq<TrackEvent>, event: TrackEvent)
    ensures
        event_views(events.push(event)) == event_views(events).push(event@),
{
    assert(event_views(events.push(event)) =~= event_views(events).push(event@));
}

/// What an event says of the set of tracked files.
pub open spec fn apply(files: path_set::PathMap, event: EventView) -> path_set::PathMap {
    match event {
        EventView::InitialTracked(path) => path_set::with_path(files, path),
        EventView::NowTracked(path) => path_set::with_path(files, path),
        EventView::Created(path) => path_set::with_path(files, path),
        EventView::Untracked(path) => files.remove(text::components(path)),
        EventView::Removed(path) => files.remove(text::components(path)),
        EventView::Moved(from, to) => path_set::with_path(
            files.remove(text::components(from)),
            to,
        ),
        EventView::Changed(path) => files,
        EventView::Error(message) => files,
    }
}

/// What a list of events says of the set of tracked files: the set that a
/// reader of the events arrives at from the given one.
pub open spec fn replay(files: path_set::PathMap, events: Seq<EventView>) -> path_set::PathMap
    decreases events.len(),
{
    if events.len() == 0 {
        files
    } else {
        apply(replay(files, events.drop_last()), events.last())
    }
}

/// Reading one more event.
pub proof fn replay_push(files: path_set::PathMap, events: Seq<EventView>, event: EventView)
    ensures
        replay(files, events.push(event)) == apply(replay(files, events), event),
{
    assert(events.push(event).drop_last() == events);
}

/// Reading two lists of events in a row.
pub proof fn replay_add(files: path_set::PathMap, a: Seq<EventView>, b: Seq<EventView>)
    ensures
        replay(files, a + b) == replay(replay(files, a), b),
    decreases b.len(),
{
    if b.len() == 0 {
        assert(a + b == a);
    } else {
        replay_add(files, a, b.drop_last());
        assert((a + b).drop_last() == a + b.drop_last());
    }
}

/// Reports an event.
pub(crate) fn report(events: &mut Vec<TrackEvent>, event: TrackEvent)
    ensures
        event_views(final(events)@) == event_views(old(events)@) + seq![event@],
{
    proof {
        event_views_push(events@, event);
        assert(event_views(events@).push(event@) =~= event_views(events@)
            + seq![event@]);
    }
    events.push(event);
}

impl TrackEventFile {
    /// The event file of a path.
    pub fn from_path(path: &AbsPath) -> (res: Self)
        ensures
            res.path@ == path@,
    {
        TrackEventFile { path: path.clone() }
    }
}

} // verus!
