use bigbrother::events::{
    emit_diff_events, emit_diff_events_filtered, flush_pending_rename_from, handle_rename,
    process_fs_event, EventKind, FsEvent, ModifyKind, RenameMode,
};
use bigbrother::options::WatchOptions;
use bigbrother::path::{AbsPath, PathError, ProjectPath};
use bigbrother::path_set::PathSet;
use bigbrother::prelude::{TrackEvent, TrackEventFile, TrackEventFileMove};
use bigbrother::readiness::SegmentReadiness;
use bigbrother::rules::{
    is_tracked_file, is_tracked_with, keeps, FileProbe, ProbedPath, RuleMatch,
};
use bigbrother::state::{collect_ignore_files, scan_tracked_files, TrackerState};
use ignore_files::IgnoreFilter;
use std::path::PathBuf;

fn abs(text: &str) -> AbsPath {
    let text = if text.starts_with('/') {
        text.to_string()
    } else {
        format!("/repo/{}", text)
    };
    AbsPath::try_new(text.as_bytes(), None).unwrap()
}

fn set(paths: &[&str]) -> PathSet {
    let mut res = PathSet::new();
    for path in paths {
        res.insert(abs(path));
    }
    res
}

fn listed(set: &PathSet) -> Vec<String> {
    (0..set.len())
        .map(|i| String::from_utf8(set.path_at(i).path().to_vec()).unwrap())
        .collect()
}

fn project(cwd: &str) -> ProjectPath {
    ProjectPath::find(cwd.as_bytes(), None, &set(&["/repo/.git"]), true).unwrap()
}

fn filter(rules: &[(Option<&str>, &[&str])]) -> IgnoreFilter {
    let mut res = IgnoreFilter::empty("/repo");
    for (dir, globs) in rules {
        res.add_globs(globs, dir.map(PathBuf::from).as_ref()).unwrap();
    }
    res
}

fn probe(is_file: bool, is_source: bool) -> FileProbe {
    FileProbe {
        is_file,
        is_source,
        rule_match: RuleMatch::Unmatched,
    }
}

fn at(path: &str, is_file: bool) -> ProbedPath {
    ProbedPath {
        path: abs(path).path().to_vec(),
        probe: probe(is_file, path.ends_with(".rs") || path.ends_with(".js")),
    }
}

fn files(paths: &[&str]) -> Vec<ProbedPath> {
    paths.iter().map(|path| at(path, true)).collect()
}

fn event(kind: EventKind, paths: Vec<ProbedPath>) -> FsEvent {
    FsEvent { kind, paths }
}

fn renamed(mode: RenameMode) -> EventKind {
    EventKind::Modify(ModifyKind::Name(mode))
}

fn state_with(rules: IgnoreFilter, paths: &[&str]) -> TrackerState {
    TrackerState::new(
        project("/repo"),
        WatchOptions::default(),
        rules,
        PathSet::new(),
        &files(paths),
        None,
    )
    .unwrap()
}

fn state(paths: &[&str]) -> TrackerState {
    state_with(filter(&[]), paths)
}

fn event_file(path: &str) -> TrackEventFile {
    TrackEventFile::from_path(&abs(path))
}

fn initial_ev(path: &str) -> TrackEvent {
    TrackEvent::InitialTracked(event_file(path))
}

fn tracked_ev(path: &str) -> TrackEvent {
    TrackEvent::NowTracked(event_file(path))
}

fn untracked_ev(path: &str) -> TrackEvent {
    TrackEvent::Untracked(event_file(path))
}

fn created_ev(path: &str) -> TrackEvent {
    TrackEvent::Created(event_file(path))
}

fn changed_ev(path: &str) -> TrackEvent {
    TrackEvent::Changed(event_file(path))
}

fn removed_ev(path: &str) -> TrackEvent {
    TrackEvent::Removed(event_file(path))
}

fn moved_ev(from: &str, to: &str) -> TrackEvent {
    TrackEvent::Moved(TrackEventFileMove {
        from: abs(from),
        to: abs(to),
    })
}

/// The files that a reader of the events arrives at.
fn replayed(before: &PathSet, events: &[TrackEvent]) -> PathSet {
    let mut res = before.clone();
    for event in events {
        match event {
            TrackEvent::InitialTracked(file)
            | TrackEvent::NowTracked(file)
            | TrackEvent::Created(file) => {
                res.insert(file.path.clone());
            }
            TrackEvent::Untracked(file) | TrackEvent::Removed(file) => {
                res.remove(&file.path);
            }
            TrackEvent::Moved(places) => {
                res.remove(&places.from);
                res.insert(places.to.clone());
            }
            TrackEvent::Changed(_) | TrackEvent::Error(_) => {}
        }
    }
    res
}

fn follow(state: &mut TrackerState, kind: EventKind, paths: Vec<ProbedPath>) -> Vec<TrackEvent> {
    let mut events = Vec::new();
    process_fs_event(state, &mut events, &event(kind, paths));
    events
}

#[test]
fn test_split_rename_from_to_behaves_as_moved() {
    let mut state = state(&["old.rs", "new.rs"]);
    let mut events = Vec::new();
    process_fs_event(
        &mut state,
        &mut events,
        &event(renamed(RenameMode::From), files(&["old.rs"])),
    );
    process_fs_event(
        &mut state,
        &mut events,
        &event(renamed(RenameMode::To), files(&["new.rs"])),
    );
    assert_eq!(events, vec![moved_ev("old.rs", "new.rs")]);
    assert!(!state.files.contains(&abs("old.rs")));
    assert!(state.files.contains(&abs("new.rs")));
}

#[test]
fn test_process_fs_event_emits_exact_live_event_sequence() {
    let mut state = state(&["main.rs", "new.rs"]);
    let mut events = Vec::new();
    process_fs_event(
        &mut state,
        &mut events,
        &event(EventKind::Create, files(&["extra.rs"])),
    );
    process_fs_event(
        &mut state,
        &mut events,
        &event(EventKind::Modify(ModifyKind::Data), files(&["extra.rs"])),
    );
    process_fs_event(
        &mut state,
        &mut events,
        &event(
            renamed(RenameMode::Both),
            vec![at("main.rs", false), at("main2.rs", true)],
        ),
    );
    process_fs_event(
        &mut state,
        &mut events,
        &event(EventKind::Remove, vec![at("extra.rs", false)]),
    );
    assert_eq!(
        events,
        vec![
            created_ev("extra.rs"),
            changed_ev("extra.rs"),
            moved_ev("main.rs", "main2.rs"),
            removed_ev("extra.rs"),
        ]
    );
}

#[test]
fn test_emit_diff_events_emits_exact_tracking_transitions() {
    let mut events = Vec::new();
    emit_diff_events(
        &mut events,
        &set(&["a.rs", "b.rs"]),
        &set(&["b.rs", "c.rs"]),
    );
    assert_eq!(events, vec![tracked_ev("c.rs"), untracked_ev("a.rs")]);
}

#[test]
fn diff_events_leave_out_paths_and_ascend() {
    let before = set(&["z", "y/b", "x"]);
    let after = set(&["d", "c-/a", "c/a", "b"]);
    let mut events = Vec::new();
    emit_diff_events_filtered(&mut events, &before, &after, &set(&["x", "b"]));
    assert_eq!(
        events,
        vec![
            tracked_ev("c/a"),
            tracked_ev("c-/a"),
            tracked_ev("d"),
            untracked_ev("y/b"),
            untracked_ev("z"),
        ]
    );
    let known = replayed(&before, &events);
    assert!(known.contains(&abs("x")));
    assert!(!known.contains(&abs("b")));
    assert!(known.contains(&abs("d")));
    assert!(!known.contains(&abs("z")));
}

#[test]
fn same_files_give_no_diff_events() {
    let mut events = Vec::new();
    emit_diff_events(&mut events, &set(&["a", "b"]), &set(&["b", "./a"]));
    assert!(events.is_empty());
}

#[test]
fn split_move_equals_full_move() {
    for to_is_file in [true, false] {
        let mut split = state(&["a", "b"]);
        let mut events = follow(&mut split, renamed(RenameMode::From), vec![at("a", false)]);
        assert!(events.is_empty());
        events.append(&mut follow(
            &mut split,
            renamed(RenameMode::To),
            vec![at("c", to_is_file)],
        ));
        let mut full = state(&["a", "b"]);
        let full_events = follow(
            &mut full,
            renamed(RenameMode::Both),
            vec![at("a", false), at("c", to_is_file)],
        );
        assert_eq!(events, full_events);
        assert_eq!(listed(&split.files), listed(&full.files));
    }
}

#[test]
fn move_and_back() {
    let mut state = state(&["a", "b"]);
    let there = follow(
        &mut state,
        renamed(RenameMode::Both),
        vec![at("a", false), at("c", true)],
    );
    let back = follow(
        &mut state,
        renamed(RenameMode::Both),
        vec![at("c", false), at("a", true)],
    );
    assert_eq!(there, vec![moved_ev("a", "c")]);
    assert_eq!(back, vec![moved_ev("c", "a")]);
    assert_eq!(listed(&state.files), vec!["/repo/a", "/repo/b"]);
}

#[test]
fn moves_across_the_rules() {
    let rules = filter(&[(Some("/repo"), &["*.tmp"])]);
    let mut state = state_with(rules, &["a", "b"]);
    let mut events = Vec::new();
    handle_rename(
        &mut state,
        &mut events,
        &abs("a"),
        &abs("a.tmp"),
        &probe(true, false),
    );
    assert_eq!(events, vec![removed_ev("a")]);
    events.clear();
    handle_rename(
        &mut state,
        &mut events,
        &abs("a.tmp"),
        &abs("a"),
        &probe(true, false),
    );
    assert_eq!(events, vec![created_ev("a")]);
    events.clear();
    handle_rename(
        &mut state,
        &mut events,
        &abs("x.tmp"),
        &abs("y.tmp"),
        &probe(true, false),
    );
    handle_rename(
        &mut state,
        &mut events,
        &abs("a"),
        &abs("./a"),
        &probe(true, false),
    );
    assert!(events.is_empty());
    assert_eq!(listed(&state.files), vec!["/repo/a", "/repo/b"]);
}

#[test]
fn full_move_drops_pending_moves() {
    let mut state = state(&["a", "b"]);
    follow(&mut state, renamed(RenameMode::From), vec![at("a", false)]);
    assert_eq!(state.pending_rename_from.len(), 1);
    let events = follow(
        &mut state,
        renamed(RenameMode::Both),
        vec![at("/else/x", false), at("y", true)],
    );
    assert!(events.is_empty());
    assert!(state.pending_rename_from.is_empty());
    assert_eq!(listed(&state.files), vec!["/repo/a", "/repo/b"]);
}

#[test]
fn full_move_with_one_path_is_a_change() {
    let mut state = state(&["a"]);
    let events = follow(&mut state, renamed(RenameMode::Both), files(&["a"]));
    assert_eq!(events, vec![changed_ev("a")]);
}

#[test]
fn pending_moves_are_first_in_first_out() {
    let mut state = state(&["a", "b"]);
    follow(
        &mut state,
        renamed(RenameMode::From),
        vec![at("b", false), at("a", false), at("x", false)],
    );
    let events = follow(
        &mut state,
        renamed(RenameMode::To),
        files(&["c", "d", "e"]),
    );
    assert_eq!(
        events,
        vec![moved_ev("b", "c"), moved_ev("a", "d"), created_ev("e")]
    );
}

#[test]
fn flushing_gives_up_on_pending_moves() {
    let mut state = state(&["a", "b"]);
    follow(
        &mut state,
        renamed(RenameMode::From),
        vec![at("b", false), at("a", false)],
    );
    follow(&mut state, EventKind::Remove, vec![at("b", false)]);
    let before = state.files.clone();
    let mut events = Vec::new();
    flush_pending_rename_from(&mut state, &mut events);
    assert_eq!(events, vec![removed_ev("a")]);
    assert!(state.pending_rename_from.is_empty());
    assert_eq!(listed(&replayed(&before, &events)), listed(&state.files));
}

#[test]
fn kinds_without_effect() {
    let mut state = state(&["a"]);
    for kind in [EventKind::Any, EventKind::Access, EventKind::Other] {
        assert!(follow(&mut state, kind, files(&["a", "b"])).is_empty());
    }
    assert_eq!(listed(&state.files), vec!["/repo/a"]);
}

#[test]
fn modification_of_an_unknown_file_creates_it() {
    let mut state = state(&["a"]);
    for kind in [
        ModifyKind::Any,
        ModifyKind::Data,
        ModifyKind::Metadata,
        ModifyKind::Other,
        ModifyKind::Name(RenameMode::Any),
        ModifyKind::Name(RenameMode::Other),
    ] {
        let events = follow(
            &mut state,
            EventKind::Modify(kind),
            vec![at("a", true), at("b", true), at("dir", false)],
        );
        assert_eq!(events, vec![changed_ev("a"), created_ev("b")]);
        let gone = follow(&mut state, EventKind::Remove, vec![at("b", false)]);
        assert_eq!(gone, vec![removed_ev("b")]);
    }
}

#[test]
fn creation_of_a_known_file_is_silent() {
    let mut state = state(&["a"]);
    assert!(follow(&mut state, EventKind::Create, files(&["a"])).is_empty());
    assert!(follow(&mut state, EventKind::Remove, vec![at("x", false)]).is_empty());
}

#[test]
fn paths_outside_are_of_no_interest() {
    let mut state = TrackerState::new(
        project("/repo/app"),
        WatchOptions::default(),
        filter(&[]),
        PathSet::new(),
        &files(&["app/a", "b", "/else/c", "app/.git/d"]),
        None,
    )
    .unwrap();
    assert_eq!(listed(&state.files), vec!["/repo/app/a"]);
    let events = follow(
        &mut state,
        EventKind::Create,
        files(&["b2", "/else/c2", "app/.hg/d2", "app/e"]),
    );
    assert_eq!(events, vec![created_ev("app/e")]);
}

#[test]
fn relative_paths_are_taken_from_cwd() {
    let mut state = state(&[]);
    let mut events = Vec::new();
    let here = ProbedPath {
        path: b"a".to_vec(),
        probe: probe(true, false),
    };
    process_fs_event(
        &mut state,
        &mut events,
        &event(EventKind::Create, vec![here]),
    );
    assert_eq!(events, vec![created_ev("a")]);
}

#[test]
fn events_tell_the_files() {
    let mut state = state(&["a", "b", "c"]);
    let known = replayed(&PathSet::new(), &state.initial_events());
    assert_eq!(listed(&known), listed(&state.files));
    let before = state.files.clone();
    let mut events = Vec::new();
    for (kind, paths) in [
        (EventKind::Create, files(&["d", "e"])),
        (renamed(RenameMode::From), vec![at("a", false)]),
        (renamed(RenameMode::To), files(&["b"])),
        (EventKind::Remove, vec![at("c", false)]),
        (
            renamed(RenameMode::Both),
            vec![at("e", false), at("f", false)],
        ),
        (EventKind::Modify(ModifyKind::Any), files(&["g", "d"])),
    ] {
        events.append(&mut follow(&mut state, kind, paths));
    }
    assert_eq!(
        events,
        vec![
            created_ev("d"),
            created_ev("e"),
            moved_ev("a", "b"),
            removed_ev("c"),
            removed_ev("e"),
            created_ev("g"),
            changed_ev("d"),
        ]
    );
    assert_eq!(listed(&replayed(&before, &events)), listed(&state.files));
    assert_eq!(listed(&state.files), vec!["/repo/b", "/repo/d", "/repo/g"]);
}

#[test]
fn initial_events_ascend() {
    let state = state(&["b", "a/z", "a-/z"]);
    assert_eq!(
        state.initial_events(),
        vec![initial_ev("a/z"), initial_ev("a-/z"), initial_ev("b")]
    );
}

#[test]
fn sets_hold_paths_by_components() {
    let mut paths = set(&["b", "a"]);
    assert_eq!(paths.len(), 2);
    assert!(!paths.insert(abs("/repo//a")));
    assert!(paths.insert(abs("c")));
    assert!(paths.contains(&abs("/repo/./b")));
    assert_eq!(listed(&paths), vec!["/repo/a", "/repo/b", "/repo/c"]);
    assert!(paths.remove(&abs("/repo//b")));
    assert!(!paths.remove(&abs("b")));
    assert_eq!(listed(&paths.without(&set(&["a"]), &set(&["x"]))), vec!["/repo/c"]);
    assert_eq!(listed(&paths.clone()), listed(&paths));
    assert_eq!(PathSet::new().len(), 0);
}

#[test]
fn rules_decide_what_is_tracked() {
    let rules = filter(&[(Some("/repo"), &["*.log", "!keep.log", "logs/"])]);
    let project_path = project("/repo");
    let is_tracked = |path: &str| {
        is_tracked_file(&project_path, &abs(path), &rules, &probe(true, false), false)
    };
    assert!(is_tracked("a.txt"));
    assert!(!is_tracked("a.log"));
    assert!(is_tracked("keep.log"));
    assert!(!is_tracked("logs/a.txt"));
    assert!(!is_tracked("deep/logs/a.txt"));
    assert!(is_tracked("deep/a.txt"));
    assert!(!is_tracked(".git/config"));
    assert!(!is_tracked("/else/a.txt"));
}

#[test]
fn texts_that_are_not_plain_go_by_the_probe() {
    let rules = filter(&[(Some("/repo"), &["*"])]);
    let project_path = project("/repo");
    let path = AbsPath::try_new(b"/repo/\xff", None).unwrap();
    let seen = |rule_match: RuleMatch| FileProbe {
        is_file: true,
        is_source: false,
        rule_match,
    };
    let ignored = RuleMatch::Ignore(None);
    assert!(is_tracked_file(
        &project_path,
        &path,
        &rules,
        &seen(RuleMatch::Unmatched),
        false
    ));
    assert!(is_tracked_file(
        &project_path,
        &path,
        &rules,
        &seen(RuleMatch::Whitelist),
        false
    ));
    assert!(!is_tracked_file(
        &project_path,
        &path,
        &rules,
        &seen(ignored),
        false
    ));
    let plain = abs("a");
    assert!(!is_tracked_file(
        &project_path,
        &plain,
        &rules,
        &seen(RuleMatch::Unmatched),
        false
    ));
}

#[test]
fn verdicts_keep_paths() {
    let path = abs("app/a");
    let ignored_from = |dir: &str| RuleMatch::Ignore(Some(dir.as_bytes().to_vec()));
    assert!(keeps(&path, &RuleMatch::Unmatched));
    assert!(keeps(&path, &RuleMatch::Whitelist));
    assert!(!keeps(&path, &RuleMatch::Ignore(None)));
    assert!(!keeps(&path, &ignored_from("/repo/app")));
    assert!(keeps(&path, &ignored_from("/repo/other")));
}

#[test]
fn source_mode_narrows() {
    let project_path = project("/repo");
    for is_file in [true, false] {
        for is_source in [true, false] {
            let seen = probe(is_file, is_source);
            for verdict in [RuleMatch::Unmatched, RuleMatch::Ignore(None)] {
                let all = is_tracked_with(&project_path, &abs("a"), &verdict, &seen, false);
                let only = is_tracked_with(&project_path, &abs("a"), &verdict, &seen, true);
                assert_eq!(all, is_file && matches!(verdict, RuleMatch::Unmatched));
                assert_eq!(only, all && is_source);
            }
        }
    }
}

#[test]
fn scan_fails_without_current_dir() {
    let rules = filter(&[]);
    let candidates = vec![
        at("a", true),
        ProbedPath {
            path: b"b".to_vec(),
            probe: probe(true, false),
        },
    ];
    let project_path = project("/repo");
    let err = scan_tracked_files(&project_path, &candidates, &rules, false, None).unwrap_err();
    assert_eq!(err, PathError::CurrentDir);
    let here = abs("sub");
    let found =
        scan_tracked_files(&project_path, &candidates, &rules, false, Some(&here)).unwrap();
    assert_eq!(listed(&found), vec!["/repo/a", "/repo/sub/b"]);
    let err = TrackerState::new(
        project("/repo"),
        WatchOptions::default(),
        filter(&[]),
        PathSet::new(),
        &candidates,
        None,
    )
    .unwrap_err();
    assert_eq!(err, PathError::CurrentDir);
}

#[test]
fn ignore_files_are_collected() {
    let local = vec![b"/repo/.gitignore".to_vec(), b"sub/.ignore".to_vec()];
    let global = vec![b"/home/excludes".to_vec(), b"/repo//.gitignore".to_vec()];
    let here = abs("/repo");
    let files = collect_ignore_files(&local, &global, Some(&here)).unwrap();
    assert_eq!(
        listed(&files),
        vec!["/home/excludes", "/repo/.gitignore", "/repo/sub/.ignore"]
    );
    assert_eq!(
        collect_ignore_files(&local, &global, None).unwrap_err(),
        PathError::CurrentDir
    );
    assert_eq!(
        collect_ignore_files(&Vec::new(), &local, None).unwrap_err(),
        PathError::CurrentDir
    );
}

#[test]
fn readiness_follows_rules_and_queries() {
    let mut state = state(&["a/b/c"]);
    let deep = abs("a/b/c");
    let flat = abs("x");
    assert!(state.needs_rebuild_for_query(&deep));
    assert!(!state.needs_rebuild_for_query(&flat));

    state.mark_path_ready(&deep);
    assert!(!state.needs_rebuild_for_query(&deep));

    state.mark_dirty_for_ignore_change(b"/repo/a/b/.gitignore");
    assert!(state.needs_rebuild_for_query(&deep));
    assert!(!state.needs_rebuild_for_query(&flat));
    assert!(!state.needs_rebuild_for_query(&abs("a/y")));

    state.rebuild(filter(&[]), PathSet::new(), &Vec::new(), None).unwrap();
    assert!(!state.needs_rebuild_for_query(&deep));
    assert_eq!(state.files.len(), 0);

    state.mark_dirty_for_ignore_change(b"/repo/.git/config");
    assert!(state.needs_rebuild_for_query(&deep));
    assert!(state.needs_rebuild_for_query(&flat));

    state.mark_path_ready(&flat);
    assert!(!state.needs_rebuild_for_query(&flat));
    assert!(state.needs_rebuild_for_query(&deep));

    state.mark_path_ready(&deep);
    state.mark_dirty_for_ignore_change(b"/else/.gitignore");
    assert!(!state.needs_rebuild_for_query(&deep));
    state.mark_dirty_for_ignore_change(b"/repo/.git/info/exclude");
    assert!(state.needs_rebuild_for_query(&flat));
    assert_eq!(
        state.segment_readiness.get(state.project_path.repo_path()),
        Some(SegmentReadiness::Dirty)
    );

    let sources = set(&["/home/excludes"]);
    state.rebuild(filter(&[]), sources, &Vec::new(), None).unwrap();
    assert!(!state.needs_rebuild_for_query(&deep));
    state.mark_dirty_for_ignore_change(b"/home/.gitignore");
    assert!(!state.needs_rebuild_for_query(&deep));
    state.mark_dirty_for_ignore_change(b"/home/excludes");
    assert!(state.needs_rebuild_for_query(&deep));
    assert!(state.needs_rebuild_for_query(&flat));
}

#[test]
fn rebuild_hands_out_both_sets() {
    let mut state = state(&["a", "b"]);
    follow(&mut state, renamed(RenameMode::From), vec![at("a", false)]);
    let rules = filter(&[(Some("/repo"), &["a"])]);
    let (before, after) = state
        .rebuild(rules, set(&[".gitignore"]), &files(&["a", "b", "c"]), None)
        .unwrap();
    assert_eq!(listed(&before), vec!["/repo/a", "/repo/b"]);
    assert_eq!(listed(&after), vec!["/repo/b", "/repo/c"]);
    assert_eq!(listed(&state.files), listed(&after));
    assert_eq!(listed(&state.ignore_files), vec!["/repo/.gitignore"]);
    assert!(state.pending_rename_from.is_empty());

    let lost = vec![ProbedPath {
        path: b"x".to_vec(),
        probe: probe(true, false),
    }];
    let err = state
        .rebuild(filter(&[]), PathSet::new(), &lost, None)
        .unwrap_err();
    assert_eq!(err, PathError::CurrentDir);
    assert_eq!(listed(&state.files), listed(&after));
    assert_eq!(listed(&state.ignore_files), vec!["/repo/.gitignore"]);
}
