//! What a tracker knows of its project.

use ignore_files::IgnoreFilter;
use std::collections::VecDeque;
use vstd::prelude::*;

use crate::options::WatchOptions;
use crate::path;
use crate::path::{AbsDirPath, AbsPath, PathError, ProjectPath};
use crate::path_set;
use crate::path_set::PathSet;
use crate::readiness;
use crate::readiness::{ReadinessMap, SegmentReadiness};
use crate::rules;
use crate::rules::{is_tracked_file, ProbedPath};
use crate::text;
use crate::track;
use crate::track::{TrackEvent, TrackEventFile};

verus! {

/// What a tracker knows of its project.
#[derive(Debug)]
pub struct TrackerState {
    /// The paths of the project.
    pub project_path: ProjectPath,
    /// The settings.
    pub options: WatchOptions,
    /// The ignore rules in force.
    pub ignore_filter: IgnoreFilter,
    /// The files that are tracked.
    pub files: PathSet,
    /// The files that the ignore rules were read from.
    pub ignore_files: PathSet,
    /// The directories that are known, and whether they are up to date.
    pub segment_readiness: ReadinessMap,
    /// Tracked files that were reported to move away and not yet to arrive,
    /// oldest first.
    pub pending_rename_from: VecDeque<AbsPath>,
}

/// The mathematical counterpart of `TrackerState`.
pub struct TrackerModel {
    pub cwd: Seq<u8>,
    pub repo: Seq<u8>,
    pub options: WatchOptions,
    pub ignore_filter: IgnoreFilter,
    pub files: path_set::PathMap,
    pub ignore_files: path_set::PathMap,
    pub readiness: Map<Seq<Seq<u8>>, SegmentReadiness>,
    pub pending: Seq<Seq<u8>>,
}

impl View for TrackerState {
    type V = TrackerModel;

    open spec fn view(&self) -> TrackerModel {
        TrackerModel {
            cwd: self.project_path.cwd(),
            repo: self.project_path.repo(),
            options: self.options,
            ignore_filter: self.ignore_filter,
            files: self.files@,
            ignore_files: self.ignore_files@,
            readiness: self.segment_readiness@,
            pending: path_set::texts(self.pending_rename_from@),
        }
    }
}

/// Whether the rules of a model leave a path to be tracked.
pub open spec fn tracks(model: TrackerModel, path: Seq<u8>, probe: rules::ProbeView) -> bool {
    rules::is_tracked(
        model.cwd,
        path,
        rules::rule_verdicts(model.ignore_filter),
        probe,
        model.options.only_source,
    )
}

/// The set of the candidates that are tracked. There is none where a candidate
/// is relative and the current directory is not known.
pub open spec fn scanned(
    cwd: Seq<u8>,
    verdicts: Map<Seq<u8>, rules::RuleVerdict>,
    only_source: bool,
    current_dir: Option<Seq<u8>>,
    candidates: Seq<rules::ProbedView>,
) -> Option<path_set::PathMap>
    decreases candidates.len(),
{
    if candidates.len() == 0 {
        Some(Map::empty())
    } else {
        let last = candidates.last();
        match (
            scanned(cwd, verdicts, only_source, current_dir, candidates.drop_last()),
            path::resolved(last.path, current_dir),
        ) {
            (Some(files), Some(path)) => if rules::is_tracked(
                cwd,
                path,
                verdicts,
                last.probe,
                only_source,
            ) {
                Some(path_set::with_path(files, path))
            } else {
                Some(files)
            },
            _ => None,
        }
    }
}

/// The set of the paths in a list. There is none where a path is relative and
/// the current directory is not known.
pub open spec fn resolved_set(paths: Seq<Seq<u8>>, current_dir: Option<Seq<u8>>) -> Option<
    path_set::PathMap,
>
    decreases paths.len(),
{
    if paths.len() == 0 {
        Some(Map::empty())
    } else {
        match (
            resolved_set(paths.drop_last(), current_dir),
            path::resolved(paths.last(), current_dir),
        ) {
            (Some(set), Some(path)) => Some(path_set::with_path(set, path)),
            _ => None,
        }
    }
}

/// Whether a directory is known and up to date.
pub open spec fn is_ready(
    known: Map<Seq<Seq<u8>>, SegmentReadiness>,
    dir: Seq<u8>,
) -> bool {
    &&& known.contains_key(text::components(dir))
    &&& known[text::components(dir)] == SegmentReadiness::Ready
}

/// Whether a directory on the way from the tracked directory to a path is not
/// known or not up to date.
pub open spec fn needs_rebuild(model: TrackerModel, path: Seq<u8>) -> bool {
    exists|i: int|
        0 <= i < path::dir_segments(model.cwd, path).len() && !is_ready(
            model.readiness,
            #[trigger] path::dir_segments(model.cwd, path)[i],
        )
}

/// The directory is among those in the list.
pub open spec fn is_segment(dirs: Seq<Seq<u8>>, key: Seq<Seq<u8>>) -> bool {
    exists|i: int| 0 <= i < dirs.len() && text::components(#[trigger] dirs[i]) == key
}

/// The given directories known and up to date, the others as before.
pub open spec fn with_ready(
    known: Map<Seq<Seq<u8>>, SegmentReadiness>,
    dirs: Seq<Seq<u8>>,
) -> Map<Seq<Seq<u8>>, SegmentReadiness> {
    Map::new(
        |key: Seq<Seq<u8>>| known.contains_key(key) || is_segment(dirs, key),
        |key: Seq<Seq<u8>>|
            if is_segment(dirs, key) {
                SegmentReadiness::Ready
            } else {
                known[key]
            },
    )
}

/// What a change of an ignore file leaves up to date: of a Git exclude or
/// config file in the repository, or of an ignore file outside it, nothing; of
/// another file in the repository, the directories outside its own.
pub open spec fn dirtied(model: TrackerModel, path: Seq<u8>) -> Map<
    Seq<Seq<u8>>,
    SegmentReadiness,
> {
    let abs = text::joined(model.cwd, path);
    if !path::is_within(abs, model.repo) {
        if path_set::has_path(model.ignore_files, abs) {
            readiness::set_under(model.readiness, None, SegmentReadiness::Dirty)
        } else {
            model.readiness
        }
    } else if path::names_git_settings(abs) {
        readiness::set_under(model.readiness, None, SegmentReadiness::Dirty)
    } else {
        match text::parent_text(abs) {
            Some(parent) => readiness::set_under(
                model.readiness,
                Some(text::components(parent)),
                SegmentReadiness::Dirty,
            ),
            None => model.readiness,
        }
    }
}

/// Picks the candidates that are tracked.
pub fn scan_tracked_files(
    project_path: &ProjectPath,
    candidates: &Vec<ProbedPath>,
    ignore_filter: &IgnoreFilter,
    only_source: bool,
    current_dir: Option<&AbsPath>,
) -> (res: Result<PathSet, PathError>)
    ensures
        match res {
            Ok(files) => scanned(
                project_path.cwd(),
                rules::rule_verdicts(*ignore_filter),
                only_source,
                path::optional_text(current_dir),
                rules::probed_views(candidates@),
            ) == Some(files@),
            Err(err) => {
                &&& err == PathError::CurrentDir
                &&& scanned(
                    project_path.cwd(),
                    rules::rule_verdicts(*ignore_filter),
                    only_source,
                    path::optional_text(current_dir),
                    rules::probed_views(candidates@),
                ) is None
            },
        },
{
    let ghost cwd = project_path.cwd();
    let ghost verdicts = rules::rule_verdicts(*ignore_filter);
    let ghost dir = path::optional_text(current_dir);
    let ghost all = rules::probed_views(candidates@);
    let mut files: PathSet = PathSet::new();
    let mut i: usize = 0;
    while i < candidates.len()
        invariant
            i <= candidates.len(),
            cwd == project_path.cwd(),
            verdicts == rules::rule_verdicts(*ignore_filter),
            dir == path::optional_text(current_dir),
            all == rules::probed_views(candidates@),
            scanned(cwd, verdicts, only_source, dir, all.take(i as int)) == Some(files@),
        decreases candidates.len() - i,
    {
        let candidate: &ProbedPath = &candidates[i];
        proof {
            assert(all.take(i + 1).drop_last() == all.take(i as int));
            assert(all.take(i + 1).last() == candidate@);
        }
        match AbsPath::try_new(candidate.path.as_slice(), current_dir) {
            Ok(path) => {
                if is_tracked_file(project_path, &path, ignore_filter, &candidate.probe, only_source) {
                    let fresh: bool = files.insert(path);
                }
            },
            Err(err) => {
                proof {
                    lemma_scan_fails(cwd, verdicts, only_source, dir, all, i + 1);
                }
                return Err(err);
            },
        }
        i = i + 1;
    }
    assert(all.take(i as int) == all);
    Ok(files)
}

/// A candidate that cannot be resolved fails the whole scan.
proof fn lemma_scan_fails(
    cwd: Seq<u8>,
    verdicts: Map<Seq<u8>, rules::RuleVerdict>,
    only_source: bool,
    current_dir: Option<Seq<u8>>,
    candidates: Seq<rules::ProbedView>,
    n: int,
)
    requires
        0 <= n <= candidates.len(),
        scanned(cwd, verdicts, only_source, current_dir, candidates.take(n)) is None,
    ensures
        scanned(cwd, verdicts, only_source, current_dir, candidates) is None,
    decreases candidates.len() - n,
{
    if n == candidates.len() {
        assert(candidates.take(n) == candidates);
    } else {
        assert(candidates.take(n + 1).drop_last() == candidates.take(n));
        lemma_scan_fails(cwd, verdicts, only_source, current_dir, candidates, n + 1);
    }
}

/// The set of the files that ignore rules were read from: those of the project
/// and those of the environment.
pub fn collect_ignore_files(
    local: &Vec<Vec<u8>>,
    global: &Vec<Vec<u8>>,
    current_dir: Option<&AbsPath>,
) -> (res: Result<PathSet, PathError>)
    ensures
        match res {
            Ok(files) => resolved_set(
                crate::order::byte_views(local@) + crate::order::byte_views(global@),
                path::optional_text(current_dir),
            ) == Some(files@),
            Err(err) => {
                &&& err == PathError::CurrentDir
                &&& resolved_set(
                    crate::order::byte_views(local@) + crate::order::byte_views(global@),
                    path::optional_text(current_dir),
                ) is None
            },
        },
{
    let ghost dir = path::optional_text(current_dir);
    let ghost all = crate::order::byte_views(local@) + crate::order::byte_views(global@);
    let mut files: PathSet = PathSet::new();
    let mut i: usize = 0;
    while i < local.len()
        invariant
            i <= local.len(),
            dir == path::optional_text(current_dir),
            all == crate::order::byte_views(local@) + crate::order::byte_views(global@),
            resolved_set(all.take(i as int), dir) == Some(files@),
        decreases local.len() - i,
    {
        proof {
            assert(all.take(i + 1).drop_last() == all.take(i as int));
            assert(all.take(i + 1).last() == local@[i as int]@);
        }
        match AbsPath::try_new(local[i].as_slice(), current_dir) {
            Ok(path) => {
                let fresh: bool = files.insert(path);
            },
            Err(err) => {
                proof {
                    lemma_resolve_fails(all, dir, i + 1);
                }
                return Err(err);
            },
        }
        i = i + 1;
    }
    let mut j: usize = 0;
    while j < global.len()
        invariant
            j <= global.len(),
            dir == path::optional_text(current_dir),
            all == crate::order::byte_views(local@) + crate::order::byte_views(global@),
            resolved_set(all.take(local@.len() + j), dir) == Some(files@),
        decreases global.len() - j,
    {
        proof {
            assert(all.take(local@.len() + j + 1).drop_last() == all.take(local@.len() + j));
            assert(all.take(local@.len() + j + 1).last() == global@[j as int]@);
        }
        match AbsPath::try_new(global[j].as_slice(), current_dir) {
            Ok(path) => {
                let fresh: bool = files.insert(path);
            },
            Err(err) => {
                proof {
                    lemma_resolve_fails(all, dir, local@.len() + j + 1);
                }
                return Err(err);
            },
        }
        j = j + 1;
    }
    assert(all.take(local@.len() + j) == all);
    Ok(files)
}

/// A path that cannot be resolved fails the whole set.
proof fn lemma_resolve_fails(paths: Seq<Seq<u8>>, current_dir: Option<Seq<u8>>, n: int)
    requires
        0 <= n <= paths.len(),
        resolved_set(paths.take(n), current_dir) is None,
    ensures
        resolved_set(paths, current_dir) is None,
    decreases paths.len() - n,
{
    if n == paths.len() {
        assert(paths.take(n) == paths);
    } else {
        assert(paths.take(n + 1).drop_last() == paths.take(n));
        lemma_resolve_fails(paths, current_dir, n + 1);
    }
}

impl TrackerState {
    /// The state of a project that was just scanned: the candidates that are
    /// tracked, and the repository root known and up to date.
    pub fn new(
        project_path: ProjectPath,
        options: WatchOptions,
        ignore_filter: IgnoreFilter,
        ignore_files: PathSet,
        candidates: &Vec<ProbedPath>,
        current_dir: Option<&AbsPath>,
    ) -> (res: Result<TrackerState, PathError>)
        ensures
            match scanned(
                project_path.cwd(),
                rules::rule_verdicts(ignore_filter),
                options.only_source,
                path::optional_text(current_dir),
                rules::probed_views(candidates@),
            ) {
                Some(files) => res matches Ok(state) && state@ == (TrackerModel {
                    cwd: project_path.cwd(),
                    repo: project_path.repo(),
                    options,
                    ignore_filter,
                    files,
                    ignore_files: ignore_files@,
                    readiness: Map::empty().insert(
                        text::components(project_path.repo()),
                        SegmentReadiness::Ready,
                    ),
                    pending: Seq::empty(),
                }),
                None => res matches Err(err) && err == PathError::CurrentDir,
            },
    {
        let files: PathSet = match scan_tracked_files(
            &project_path,
            candidates,
            &ignore_filter,
            options.only_source(),
            current_dir,
        ) {
            Ok(files) => files,
            Err(err) => {
                return Err(err);
            },
        };
        let mut segment_readiness: ReadinessMap = ReadinessMap::new();
        segment_readiness.insert(project_path.repo_path().clone(), SegmentReadiness::Ready);
        let state: TrackerState = TrackerState {
            project_path,
            options,
            ignore_filter,
            files,
            ignore_files,
            segment_readiness,
            pending_rename_from: VecDeque::new(),
        };
        assert(state@.pending =~= Seq::<Seq<u8>>::empty());
        Ok(state)
    }

    /// Takes over new ignore rules and a new scan: every known directory is up
    /// to date and no move is pending. The results are the files that were
    /// tracked before and those that are now. Where the scan fails the state
    /// stays as it is.
    pub fn rebuild(
        &mut self,
        ignore_filter: IgnoreFilter,
        ignore_files: PathSet,
        candidates: &Vec<ProbedPath>,
        current_dir: Option<&AbsPath>,
    ) -> (res: Result<(PathSet, PathSet), PathError>)
        ensures
            match scanned(
                old(self)@.cwd,
                rules::rule_verdicts(ignore_filter),
                old(self)@.options.only_source,
                path::optional_text(current_dir),
                rules::probed_views(candidates@),
            ) {
                Some(files) => {
                    &&& res matches Ok(sets) && sets.0@ == old(self)@.files && sets.1@ == files
                    &&& final(self)@ == (TrackerModel {
                        ignore_filter,
                        files,
                        ignore_files: ignore_files@,
                        readiness: readiness::set_under(
                            old(self)@.readiness,
                            None,
                            SegmentReadiness::Ready,
                        ),
                        pending: Seq::empty(),
                        ..old(self)@
                    })
                },
                None => {
                    &&& res matches Err(err) && err == PathError::CurrentDir
                    &&& final(self)@ == old(self)@
                },
            },
    {
        let before: PathSet = self.files.clone();
        let files: PathSet = match scan_tracked_files(
            &self.project_path,
            candidates,
            &ignore_filter,
            self.options.only_source(),
            current_dir,
        ) {
            Ok(files) => files,
            Err(err) => {
                return Err(err);
            },
        };
        self.ignore_filter = ignore_filter;
        self.ignore_files = ignore_files;
        self.files = files.clone();
        self.segment_readiness.set_within(None, SegmentReadiness::Ready);
        self.pending_rename_from.clear();
        assert(self@.pending =~= Seq::<Seq<u8>>::empty());
        Ok((before, files))
    }

    /// Whether the state has to be rebuilt before it is asked about a path.
    pub fn needs_rebuild_for_query(&self, path: &AbsPath) -> (res: bool)
        ensures
            res == needs_rebuild(self@, path@),
    {
        let segments: Vec<AbsDirPath> = self.project_path.dir_segments_to(path);
        let ghost dirs = path::dir_segments(self@.cwd, path@);
        let mut i: usize = 0;
        while i < segments.len()
            invariant
                i <= segments.len(),
                path::dir_texts(segments@) == dirs,
                dirs == path::dir_segments(self@.cwd, path@),
                forall|j: int| 0 <= j < i ==> is_ready(self@.readiness, #[trigger] dirs[j]),
            decreases segments.len() - i,
        {
            assert(dirs[i as int] == segments@[i as int]@);
            match self.segment_readiness.get(&segments[i]) {
                Some(state) => {
                    if state != SegmentReadiness::Ready {
                        return true;
                    }
                },
                None => {
                    return true;
                },
            }
            i = i + 1;
        }
        false
    }

    /// Notes that the directories on the way to a path are up to date.
    pub fn mark_path_ready(&mut self, path: &AbsPath)
        ensures
            final(self)@ == (TrackerModel {
                readiness: with_ready(
                    old(self)@.readiness,
                    path::dir_segments(old(self)@.cwd, path@),
                ),
                ..old(self)@
            }),
    {
        let segments: Vec<AbsDirPath> = self.project_path.dir_segments_to(path);
        let ghost dirs = path::dir_segments(self@.cwd, path@);
        let ghost before = self@;
        let mut i: usize = 0;
        assert(with_ready(before.readiness, dirs.take(0)) =~= before.readiness);
        while i < segments.len()
            invariant
                i <= segments.len(),
                path::dir_texts(segments@) == dirs,
                self@ == (TrackerModel {
                    readiness: with_ready(before.readiness, dirs.take(i as int)),
                    ..before
                }),
            decreases segments.len() - i,
        {
            let ghost known = self@.readiness;
            self.segment_readiness.insert(segments[i].clone(), SegmentReadiness::Ready);
            proof {
                let a = dirs.take(i as int);
                let b = dirs.take(i + 1);
                let added = text::components(dirs[i as int]);
                assert(dirs[i as int] == segments@[i as int]@);
                assert forall|key: Seq<Seq<u8>>|
                    is_segment(b, key) == (is_segment(a, key) || key == added) by {
                    if is_segment(b, key) {
                        let j = choose|j: int|
                            0 <= j < b.len() && text::components(#[trigger] b[j]) == key;
                        if j < i {
                            assert(a[j] == b[j]);
                        }
                    }
                    if is_segment(a, key) {
                        let j = choose|j: int|
                            0 <= j < a.len() && text::components(#[trigger] a[j]) == key;
                        assert(a[j] == b[j]);
                    }
                    assert(b[i as int] == dirs[i as int]);
                }
                assert(self@.readiness =~= with_ready(before.readiness, b));
            }
            i = i + 1;
        }
        assert(dirs.take(i as int) == dirs);
    }

    /// Notes which directories a change of an ignore file puts out of date.
    pub fn mark_dirty_for_ignore_change(&mut self, path: &[u8])
        ensures
            final(self)@ == (TrackerModel {
                readiness: dirtied(old(self)@, path@),
                ..old(self)@
            }),
    {
        let abs: AbsPath = AbsPath::new(self.project_path.cwd_path(), path);
        if !abs.is_or_within(self.project_path.repo_path()) {
            if self.ignore_files.contains(&abs) {
                self.segment_readiness.set_within(None, SegmentReadiness::Dirty);
            }
            return;
        }
        if abs.is_git_exclude_file() || abs.is_git_config_file() {
            self.segment_readiness.set_within(None, SegmentReadiness::Dirty);
            return;
        }
        match abs.parent() {
            Some(parent) => {
                self.segment_readiness.set_within(Some(&parent), SegmentReadiness::Dirty);
            },
            None => {},
        }
    }

    /// The events that tell a new reader which files are tracked.
    pub fn initial_events(&self) -> (res: Vec<TrackEvent>)
        ensures
            track::event_views(res@) == path_set::ascending(self@.files).map_values(
                |path: Seq<u8>| track::EventView::InitialTracked(path),
            ),
    {
        let mut res: Vec<TrackEvent> = Vec::new();
        let n: usize = self.files.len();
        let ghost list = path_set::ascending(self@.files);
        let ghost want = list.map_values(|path: Seq<u8>| track::EventView::InitialTracked(path));
        let mut i: usize = 0;
        while i < n
            invariant
                i <= n,
                n == list.len(),
                list == self.files.list(),
                want == list.map_values(|path: Seq<u8>| track::EventView::InitialTracked(path)),
                track::event_views(res@) == want.take(i as int),
            decreases n - i,
        {
            let event: TrackEvent = TrackEvent::InitialTracked(
                TrackEventFile::from_path(self.files.path_at(i)),
            );
            proof {
                track::event_views_push(res@, event);
                assert(want.take(i + 1) == want.take(i as int).push(want[i as int]));
            }
            res.push(event);
            i = i + 1;
        }
        assert(want.take(i as int) == want);
        res
    }
}

} // verus!
