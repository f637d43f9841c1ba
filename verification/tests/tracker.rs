use bigbrother::aux_watch::{commit_aux_watches, next_watch, refresh_aux_watches};
use bigbrother::batch::handle_debounced_result;
use bigbrother::events::{EventKind, FsEvent, ModifyKind, RenameMode};
use bigbrother::options::WatchOptions;
use bigbrother::path::{AbsPath, ProjectPath};
use bigbrother::path_set::PathSet;
use bigbrother::rules::{FileProbe, ProbedPath, RuleMatch};
use bigbrother::state::TrackerState;
use bigbrother::track::{TrackEvent, TrackEventError, TrackEventFile, TrackEventFileMove};
use bigbrother::tracker::{Action, Input, Phase, Rebuilt, Refreshed, Tracker};
use ignore_files::IgnoreFilter;
use std::path::PathBuf;

type Batch = Result<Vec<FsEvent>, Vec<String>>;

/// A repository in which a tracker runs: its files, its ignore rules, the files
/// that they come from, and the batches that wait to be read.
struct Repo {
    cwd: String,
    files: Vec<String>,
    rules: Vec<(Option<String>, Vec<String>)>,
    ignore_files: Vec<String>,
    batches: Vec<Batch>,
    events: Vec<TrackEvent>,
    tracker: Option<Tracker>,
}

fn abs(text: &str) -> AbsPath {
    AbsPath::try_new(text.as_bytes(), None).unwrap()
}

fn set(paths: &[&str]) -> PathSet {
    let mut res = PathSet::new();
    for path in paths {
        res.insert(abs(path));
    }
    res
}

fn listed(set: &PathSet) -> Vec<String> {
    (0..set.len())
        .map(|i| String::from_utf8(set.path_at(i).path().to_vec()).unwrap())
        .collect()
}

impl Repo {
    fn new(files: &[&str]) -> Self {
        Repo {
            cwd: "/repo".to_string(),
            files: files.iter().map(|f| format!("/repo/{}", f)).collect(),
            rules: Vec::new(),
            ignore_files: Vec::new(),
            batches: Vec::new(),
            events: Vec::new(),
            tracker: None,
        }
    }

    /// The rules of one ignore file; an empty directory stands for everywhere.
    fn ignore(&mut self, dir: &str, globs: &[&str]) {
        let dir = if dir.is_empty() {
            None
        } else {
            Some(dir.to_string())
        };
        self.rules.retain(|(other, _)| *other != dir);
        self.rules
            .push((dir, globs.iter().map(|glob| glob.to_string()).collect()));
    }

    fn filter(&self) -> IgnoreFilter {
        let mut res = IgnoreFilter::empty("/repo");
        for (dir, globs) in &self.rules {
            let globs: Vec<&str> = globs.iter().map(|glob| glob.as_str()).collect();
            let dir = dir.as_ref().map(PathBuf::from);
            res.add_globs(&globs, dir.as_ref()).unwrap();
        }
        res
    }

    fn probed(&self, path: &str) -> ProbedPath {
        ProbedPath {
            path: path.as_bytes().to_vec(),
            probe: FileProbe {
                is_file: self.files.iter().any(|file| file == path),
                is_source: path.ends_with(".js") || path.ends_with(".rs"),
                rule_match: RuleMatch::Unmatched,
            },
        }
    }

    fn candidates(&self) -> Vec<ProbedPath> {
        self.files.iter().map(|file| self.probed(file)).collect()
    }

    fn sources(&self) -> PathSet {
        let names: Vec<&str> = self.ignore_files.iter().map(|file| file.as_str()).collect();
        set(&names)
    }

    fn path(&self, name: &str) -> String {
        format!("{}/{}", self.cwd, name)
    }

    fn start_with_options(&mut self, options: WatchOptions) {
        let project_path =
            ProjectPath::find(self.cwd.as_bytes(), None, &set(&["/repo/.git"]), true).unwrap();
        let state = TrackerState::new(
            project_path,
            options,
            self.filter(),
            self.sources(),
            &self.candidates(),
            None,
        )
        .unwrap();
        self.events = state.initial_events();
        self.tracker = Some(Tracker::new(state, PathSet::new()));
    }

    fn start(&mut self) {
        self.start_with_options(WatchOptions::default());
    }

    /// Hands a batch of changes to be read, each with its paths in the
    /// repository.
    fn report(&mut self, changes: &[(EventKind, &[&str])]) {
        let batch = changes
            .iter()
            .map(|(kind, paths)| FsEvent {
                kind: *kind,
                paths: paths
                    .iter()
                    .map(|path| self.probed(&format!("/repo/{}", path)))
                    .collect(),
            })
            .collect();
        self.batches.push(Ok(batch));
    }

    /// Hands a batch with one change of a path anywhere.
    fn report_at(&mut self, kind: EventKind, path: &str) {
        let paths = vec![self.probed(path)];
        self.batches.push(Ok(vec![FsEvent { kind, paths }]));
    }

    fn step(&mut self, input: Input) -> Action {
        let tracker = self.tracker.as_mut().unwrap();
        tracker.step(&mut self.events, input)
    }

    /// Performs what the tracker asks for until it waits, and gives its answer.
    fn run(&mut self, input: Input) -> Option<bool> {
        let mut action = self.step(input);
        loop {
            let next = match action {
                Action::Wait | Action::Stop => return None,
                Action::Answer(answer) => return Some(answer),
                Action::Settle => Input::Settled,
                Action::Poll => {
                    if self.batches.is_empty() {
                        Input::Drained
                    } else {
                        Input::Batch(self.batches.remove(0))
                    }
                }
                Action::Rebuild => Input::Rebuilt(Rebuilt {
                    ignore_filter: self.filter(),
                    ignore_files: self.sources(),
                    candidates: self.candidates(),
                    current_dir: None,
                }),
                Action::Refresh => {
                    let tracker = self.tracker.as_ref().unwrap();
                    let plan = refresh_aux_watches(
                        &tracker.state,
                        &tracker.state.ignore_files,
                        &tracker.aux_watches,
                    );
                    let taken = plan.watch.len();
                    Input::Refreshed(Refreshed {
                        existing: tracker.state.ignore_files.clone(),
                        taken,
                        failure: None,
                    })
                }
            };
            action = self.step(next);
        }
    }

    /// The events of the batches that wait to be read, and those before.
    fn read(&mut self) -> Vec<TrackEvent> {
        while !self.batches.is_empty() {
            let batch = self.batches.remove(0);
            self.run(Input::Batch(batch));
        }
        std::mem::take(&mut self.events)
    }

    fn is_tracked(&mut self, name: &str) -> bool {
        let path = abs(&self.path(name));
        self.run(Input::Query(path)).unwrap()
    }

    fn file(&self, name: &str) -> TrackEventFile {
        TrackEventFile::from_path(&abs(&self.path(name)))
    }

    fn initial_ev(&self, name: &str) -> TrackEvent {
        TrackEvent::InitialTracked(self.file(name))
    }

    fn tracked_ev(&self, name: &str) -> TrackEvent {
        TrackEvent::NowTracked(self.file(name))
    }

    fn untracked_ev(&self, name: &str) -> TrackEvent {
        TrackEvent::Untracked(self.file(name))
    }

    fn created_ev(&self, name: &str) -> TrackEvent {
        TrackEvent::Created(self.file(name))
    }

    fn changed_ev(&self, name: &str) -> TrackEvent {
        TrackEvent::Changed(self.file(name))
    }

    fn moved_ev(&self, from: &str, to: &str) -> TrackEvent {
        TrackEvent::Moved(TrackEventFileMove {
            from: abs(&self.path(from)),
            to: abs(&self.path(to)),
        })
    }
}

fn error_ev(message: &str) -> TrackEvent {
    TrackEvent::Error(TrackEventError {
        message: message.to_string(),
    })
}

const WRITTEN: EventKind = EventKind::Modify(ModifyKind::Data);

const MOVED: EventKind = EventKind::Modify(ModifyKind::Name(RenameMode::Both));

#[test]
fn test_source_filter_enabled_behavior_filter_off() {
    let mut repo = Repo::new(&["file", "file.bin", "file.js"]);
    repo.start();
    assert_eq!(
        repo.read(),
        vec![
            repo.initial_ev("file"),
            repo.initial_ev("file.bin"),
            repo.initial_ev("file.js"),
        ]
    );
}

#[test]
fn test_source_filter_enabled_behavior_filter_on() {
    let mut repo = Repo::new(&["file", "file.bin", "file.js"]);
    repo.start_with_options(WatchOptions {
        only_source: true,
        ..WatchOptions::default()
    });
    assert_eq!(repo.read(), vec![repo.initial_ev("file.js")]);
}

#[test]
fn test_source_filter_disabled_behavior() {
    let mut repo = Repo::new(&["file", "file.bin", "file.zip", "file.js"]);
    repo.start();
    assert_eq!(
        repo.read(),
        vec![
            repo.initial_ev("file"),
            repo.initial_ev("file.bin"),
            repo.initial_ev("file.js"),
            repo.initial_ev("file.zip"),
        ]
    );
}

#[test]
fn test_initial_tracked_events() {
    let mut repo = Repo::new(&[
        ".gitignore",
        "root.rs",
        "src/lib.rs",
        "ignored.tmp",
        "logs/app.log",
    ]);
    repo.ignore("/repo", &["ignored.tmp", "logs/"]);
    repo.start();
    assert_eq!(
        repo.read(),
        vec![
            repo.initial_ev(".gitignore"),
            repo.initial_ev("root.rs"),
            repo.initial_ev("src/lib.rs"),
        ]
    );
}

#[test]
fn test_start_with_options() {
    let mut repo = Repo::new(&["main.rs"]);
    repo.start_with_options(WatchOptions {
        settle_delay: 10_000_000,
        event_channel_capacity: 16,
        ..WatchOptions::default()
    });
    assert_eq!(repo.read(), vec![repo.initial_ev("main.rs")]);
    let options = &repo.tracker.as_ref().unwrap().state.options;
    assert_eq!(options.settle_delay, 10_000_000);
    assert_eq!(options.event_channel_capacity, 16);
}

#[test]
fn default_options() {
    let options = WatchOptions::default();
    assert!(!options.only_source);
    assert!(!options.only_source());
    assert_eq!(options.app_name, None);
    assert_eq!(options.settle_delay, 50_000_000);
    assert_eq!(options.event_channel_capacity, 1024);
}

#[test]
fn test_ignore_changes() {
    let mut repo = Repo::new(&[".gitignore", "ignored.txt", "tracked.rs"]);
    repo.ignore("/repo", &["ignored.txt"]);
    repo.start();
    assert_eq!(
        repo.read(),
        vec![repo.initial_ev(".gitignore"), repo.initial_ev("tracked.rs")]
    );

    repo.ignore("/repo", &[]);
    repo.report(&[(WRITTEN, &[".gitignore"])]);
    assert_eq!(
        repo.read(),
        vec![
            repo.changed_ev(".gitignore"),
            repo.tracked_ev("ignored.txt"),
        ]
    );
}

#[test]
fn test_nested_repo_cwd() {
    let mut repo = Repo::new(&[".gitignore", "app/a.log", "app/main.rs"]);
    repo.cwd = "/repo/app".to_string();
    repo.start();
    assert_eq!(
        repo.read(),
        vec![repo.initial_ev("a.log"), repo.initial_ev("main.rs")]
    );

    repo.ignore("/repo", &["*.log"]);
    repo.report(&[(WRITTEN, &[".gitignore"])]);
    assert_eq!(repo.read(), vec![repo.untracked_ev("a.log")]);

    repo.ignore("/repo", &[]);
    repo.report(&[(WRITTEN, &[".gitignore"])]);
    assert_eq!(repo.read(), vec![repo.tracked_ev("a.log")]);
}

#[test]
fn test_global_ignore() {
    let mut repo = Repo::new(&["global-excludes", "app/global.txt"]);
    repo.cwd = "/repo/app".to_string();
    repo.ignore_files = vec!["/repo/global-excludes".to_string()];
    repo.ignore("", &["global.txt"]);
    repo.start();
    assert_eq!(repo.read(), vec![]);

    repo.ignore("", &[]);
    repo.report(&[(WRITTEN, &["global-excludes"])]);
    assert_eq!(repo.read(), vec![repo.tracked_ev("global.txt")]);
}

#[test]
fn ignore_file_outside_the_repository_is_rescanned() {
    let mut repo = Repo::new(&["a.log", "b.txt"]);
    repo.ignore_files = vec!["/home/excludes".to_string()];
    repo.start();
    repo.read();

    repo.ignore("", &["*.log"]);
    repo.report_at(WRITTEN, "/home/excludes");
    assert_eq!(repo.read(), vec![repo.untracked_ev("a.log")]);
    let tracker = repo.tracker.as_ref().unwrap();
    assert_eq!(listed(&tracker.state.files), vec!["/repo/b.txt"]);
    assert_eq!(listed(&tracker.aux_watches), vec!["/home/excludes"]);

    repo.ignore("", &[]);
    repo.report_at(WRITTEN, "/home/excludes");
    assert!(repo.is_tracked("a.log"));
    assert_eq!(repo.read(), vec![repo.tracked_ev("a.log")]);

    // Other files next to it are of no interest.
    repo.report_at(WRITTEN, "/home/.gitignore");
    repo.report_at(EventKind::Access, "/home/excludes");
    assert_eq!(repo.read(), vec![]);
}

#[test]
fn steps_report_no_initial_events() {
    let mut repo = Repo::new(&[".gitignore", "a"]);
    repo.start();
    assert_eq!(
        repo.read(),
        vec![repo.initial_ev(".gitignore"), repo.initial_ev("a")]
    );
    repo.files.push("/repo/b".to_string());
    repo.report(&[(WRITTEN, &[".gitignore"])]);
    repo.is_tracked("b");
    assert!(repo
        .read()
        .iter()
        .all(|event| !matches!(event, TrackEvent::InitialTracked(_))));
}

#[test]
fn refresh_leads_to_the_wanted_watches() {
    let mut repo = Repo::new(&["a"]);
    repo.ignore_files = vec!["/home/x".to_string(), "/home/git/y".to_string()];
    repo.start();
    let tracker = repo.tracker.as_mut().unwrap();
    tracker.refresh(&set(&["/home/x"]), 1);
    assert_eq!(listed(&tracker.aux_watches), vec!["/home/git"]);
    tracker.refresh(&set(&["/home/x"]), 1);
    assert_eq!(listed(&tracker.aux_watches), vec!["/home/git", "/home/x"]);
    tracker.refresh(&set(&["/home/x", "/home/git/y"]), 9);
    assert_eq!(listed(&tracker.aux_watches), vec!["/home/git/y", "/home/x"]);
}

#[test]
fn test_move() {
    let mut repo = Repo::new(&[".gitignore", "a.ignored.txt", "tracked.rs"]);
    repo.ignore("/repo", &["*.ignored.txt"]);
    repo.start();
    assert_eq!(
        repo.read(),
        vec![repo.initial_ev(".gitignore"), repo.initial_ev("tracked.rs")]
    );

    repo.files = vec![
        "/repo/.gitignore".to_string(),
        "/repo/moved.rs".to_string(),
        "/repo/b.ignored.txt".to_string(),
    ];
    repo.report(&[
        (MOVED, &["tracked.rs", "moved.rs"]),
        (MOVED, &["a.ignored.txt", "b.ignored.txt"]),
    ]);
    assert_eq!(repo.read(), vec![repo.moved_ev("tracked.rs", "moved.rs")]);
}

#[test]
fn test_change() {
    let mut repo = Repo::new(&["a.txt", "b.txt"]);
    repo.start();
    assert_eq!(
        repo.read(),
        vec![repo.initial_ev("a.txt"), repo.initial_ev("b.txt")]
    );

    repo.report(&[(WRITTEN, &["a.txt"]), (WRITTEN, &["b.txt"])]);
    assert_eq!(
        repo.read(),
        vec![repo.changed_ev("a.txt"), repo.changed_ev("b.txt")]
    );
}

#[test]
fn test_rapid_updates() {
    let mut repo = Repo::new(&["a.txt", "b.txt", "c.txt"]);
    repo.start();
    assert_eq!(
        repo.read(),
        vec![
            repo.initial_ev("a.txt"),
            repo.initial_ev("b.txt"),
            repo.initial_ev("c.txt"),
        ]
    );

    // Of several moves in a row the debouncer reports one, from the first path
    // to the last.
    repo.files = vec![
        "/repo/a.txt".to_string(),
        "/repo/b3.txt".to_string(),
        "/repo/c.txt".to_string(),
    ];
    repo.report(&[
        (WRITTEN, &["a.txt"]),
        (MOVED, &["b.txt", "b3.txt"]),
        (MOVED, &["c.txt", "c.txt"]),
    ]);
    assert_eq!(
        repo.read(),
        vec![
            repo.changed_ev("a.txt"),
            repo.moved_ev("b.txt", "b3.txt"),
        ]
    );
}

#[test]
fn test_mid_path_gitignore() {
    let mut repo = Repo::new(&[
        "path/to/file/.gitignore",
        "path/to/file/a.txt",
        "path/to/file/b.txt",
        "path/to/file/c.txt",
        "path/to/file/d.txt",
        "path/to/a.txt",
        "path/to/b.txt",
        "path/to/c.txt",
        "path/to/d.txt",
        ".gitignore",
    ]);
    repo.ignore("/repo", &["d.txt"]);
    repo.ignore("/repo/path/to/file", &["/a.txt"]);
    repo.start();
    assert_eq!(
        repo.read(),
        vec![
            repo.initial_ev(".gitignore"),
            repo.initial_ev("path/to/a.txt"),
            repo.initial_ev("path/to/b.txt"),
            repo.initial_ev("path/to/c.txt"),
            repo.initial_ev("path/to/file/.gitignore"),
            repo.initial_ev("path/to/file/b.txt"),
            repo.initial_ev("path/to/file/c.txt"),
        ]
    );

    repo.files.push("/repo/path/to/.gitignore".to_string());
    repo.ignore("/repo/path/to", &["a.txt", "/b.txt", "c.txt"]);
    repo.report(&[(EventKind::Create, &["path/to/.gitignore"])]);
    assert_eq!(
        repo.read(),
        vec![
            repo.created_ev("path/to/.gitignore"),
            repo.untracked_ev("path/to/a.txt"),
            repo.untracked_ev("path/to/b.txt"),
            repo.untracked_ev("path/to/c.txt"),
            repo.untracked_ev("path/to/file/c.txt"),
        ]
    );
}

#[test]
fn test_is_tracked_reflects_ignore_changes() {
    let mut repo = Repo::new(&[".gitignore", "a.txt", "b.txt"]);
    repo.ignore("/repo", &["a.txt", "b.txt"]);
    repo.start();
    assert!(!repo.is_tracked("a.txt"));
    assert!(!repo.is_tracked("b.txt"));

    repo.ignore("/repo", &["b.txt"]);
    repo.report(&[(WRITTEN, &[".gitignore"])]);
    assert!(repo.is_tracked("a.txt"));
    assert!(!repo.is_tracked("b.txt"));

    repo.ignore("/repo", &["a.txt"]);
    repo.report(&[(WRITTEN, &[".gitignore"])]);
    assert!(!repo.is_tracked("a.txt"));
    assert!(repo.is_tracked("b.txt"));
}

#[test]
fn query_of_an_unknown_directory_rebuilds() {
    let mut repo = Repo::new(&["src/a.rs"]);
    repo.start();
    repo.read();
    repo.files.push("/repo/src/b.rs".to_string());
    assert!(repo.is_tracked("src/b.rs"));
    assert_eq!(repo.read(), vec![repo.tracked_ev("src/b.rs")]);
    // The directory is known now: no second scan.
    repo.files.push("/repo/src/c.rs".to_string());
    assert!(!repo.is_tracked("src/c.rs"));
    assert_eq!(repo.read(), vec![]);
}

#[test]
fn batch_leaves_touched_files_out_of_the_diff() {
    let mut repo = Repo::new(&[".gitignore", "a", "b"]);
    repo.start();
    repo.read();
    repo.ignore("/repo", &["a", "b"]);
    repo.report(&[(WRITTEN, &[".gitignore", "a"])]);
    assert_eq!(
        repo.read(),
        vec![
            repo.changed_ev(".gitignore"),
            repo.changed_ev("a"),
            repo.untracked_ev("b"),
        ]
    );
    assert!(!repo.is_tracked("a"));
}

#[test]
fn batch_says_what_is_left_to_do() {
    let mut repo = Repo::new(&["app/a", "b"]);
    repo.cwd = "/repo/app".to_string();
    repo.start();
    let state = &mut repo.tracker.as_mut().unwrap().state;
    let mut events = Vec::new();
    let one = |kind: EventKind, path: &str| FsEvent {
        kind,
        paths: vec![ProbedPath {
            path: path.as_bytes().to_vec(),
            probe: FileProbe {
                is_file: true,
                is_source: false,
                rule_match: RuleMatch::Unmatched,
            },
        }],
    };
    let batch: Batch = Ok(vec![
        one(WRITTEN, "/repo/app/a"),
        one(WRITTEN, "/repo/b"),
        one(WRITTEN, "/else/.gitignore"),
        one(EventKind::Access, "/repo/.gitignore"),
        one(EventKind::Other, "/repo/app/c"),
    ]);
    let outcome = handle_debounced_result(state, &mut events, &batch);
    assert!(!outcome.rebuild);
    assert_eq!(listed(&outcome.touched), vec!["/repo/app/a", "/repo/app/c"]);
    for path in ["/repo/.gitignore", "/repo/.git/config", "/repo/app/.ignore"] {
        let batch: Batch = Ok(vec![one(WRITTEN, path)]);
        assert!(handle_debounced_result(state, &mut events, &batch).rebuild);
    }
}

#[test]
fn batch_end_gives_up_on_moves() {
    let mut repo = Repo::new(&["a"]);
    repo.start();
    repo.read();
    repo.files.clear();
    let away = EventKind::Modify(ModifyKind::Name(RenameMode::From));
    repo.report(&[(away, &["a"])]);
    assert_eq!(
        repo.read(),
        vec![TrackEvent::Removed(repo.file("a"))]
    );
}

#[test]
fn failures_are_reported() {
    let mut repo = Repo::new(&["a", ".gitignore"]);
    repo.start();
    repo.read();
    repo.batches
        .push(Err(vec!["first".to_string(), "second".to_string()]));
    assert_eq!(repo.read(), vec![error_ev("first"), error_ev("second")]);

    repo.report(&[(WRITTEN, &[".gitignore"])]);
    let batch = repo.batches.remove(0);
    assert_eq!(repo.step(Input::Batch(batch)), Action::Settle);
    assert_eq!(repo.step(Input::Settled), Action::Rebuild);
    assert_eq!(
        repo.step(Input::RebuildFailed("no rules".to_string())),
        Action::Wait
    );
    assert_eq!(
        repo.read(),
        vec![repo.changed_ev(".gitignore"), error_ev("no rules")]
    );
}

#[test]
fn failed_scan_is_reported() {
    let mut repo = Repo::new(&["a", ".gitignore"]);
    repo.start();
    repo.read();
    repo.report(&[(WRITTEN, &[".gitignore"])]);
    let batch = repo.batches.remove(0);
    repo.step(Input::Batch(batch));
    repo.step(Input::Settled);
    let lost = Rebuilt {
        ignore_filter: repo.filter(),
        ignore_files: PathSet::new(),
        candidates: vec![repo.probed("relative")],
        current_dir: None,
    };
    assert_eq!(repo.step(Input::Rebuilt(lost)), Action::Wait);
    assert_eq!(
        repo.read(),
        vec![
            repo.changed_ev(".gitignore"),
            error_ev("failed to resolve current dir"),
        ]
    );
}

#[test]
fn failed_rebuild_still_answers_the_query() {
    let mut repo = Repo::new(&["src/a.rs"]);
    repo.start();
    repo.read();
    let path = abs("/repo/src/a.rs");
    assert_eq!(repo.step(Input::Query(path)), Action::Settle);
    assert_eq!(repo.step(Input::Settled), Action::Poll);
    assert_eq!(repo.step(Input::Drained), Action::Rebuild);
    assert_eq!(
        repo.step(Input::RebuildFailed("no rules".to_string())),
        Action::Answer(true)
    );
    assert_eq!(repo.read(), vec![]);
}

#[test]
fn failed_refresh_is_reported_and_half_done() {
    let mut repo = Repo::new(&["a", ".gitignore"]);
    repo.start();
    repo.read();
    repo.ignore_files = vec!["/home/x".to_string(), "/home/y".to_string()];
    repo.report(&[(WRITTEN, &[".gitignore"])]);
    let batch = repo.batches.remove(0);
    repo.step(Input::Batch(batch));
    repo.step(Input::Settled);
    let rebuilt = Rebuilt {
        ignore_filter: repo.filter(),
        ignore_files: repo.sources(),
        candidates: repo.candidates(),
        current_dir: None,
    };
    assert_eq!(repo.step(Input::Rebuilt(rebuilt)), Action::Refresh);
    let tracker = repo.tracker.as_ref().unwrap();
    let plan = refresh_aux_watches(
        &tracker.state,
        &set(&["/home/x", "/home/y"]),
        &tracker.aux_watches,
    );
    assert_eq!(listed(&plan.watch), vec!["/home/x", "/home/y"]);
    assert!(next_watch(&plan, 0, false) == Some(&abs("/home/x")));
    assert!(next_watch(&plan, 1, false) == Some(&abs("/home/y")));
    assert!(next_watch(&plan, 1, true).is_none());
    assert!(next_watch(&plan, 2, false).is_none());
    let outcome = Refreshed {
        existing: set(&["/home/x", "/home/y"]),
        taken: 1,
        failure: Some("no watch".to_string()),
    };
    assert_eq!(repo.step(Input::Refreshed(outcome)), Action::Wait);
    assert_eq!(
        repo.read(),
        vec![repo.changed_ev(".gitignore"), error_ev("no watch")]
    );
    let tracker = repo.tracker.as_ref().unwrap();
    assert_eq!(listed(&tracker.aux_watches), vec!["/home/x"]);
}

#[test]
fn query_waits_for_the_batches_before_it() {
    let mut repo = Repo::new(&["a"]);
    repo.start();
    repo.read();
    repo.files.push("/repo/b".to_string());
    repo.report(&[(EventKind::Create, &["b"])]);
    repo.report(&[(WRITTEN, &["a"])]);
    assert!(repo.is_tracked("b"));
    assert_eq!(
        repo.read(),
        vec![repo.created_ev("b"), repo.changed_ev("a")]
    );
}

#[test]
fn tracker_stops() {
    for end in [Input::Stop, Input::BatchesClosed] {
        let mut repo = Repo::new(&["a"]);
        repo.start();
        repo.read();
        assert_eq!(repo.step(Input::QueriesClosed), Action::Wait);
        assert_eq!(repo.step(end), Action::Stop);
        assert_eq!(repo.step(Input::Query(abs("/repo/a"))), Action::Stop);
        assert_eq!(repo.step(Input::Settled), Action::Stop);
        assert!(matches!(
            repo.tracker.as_ref().unwrap().phase,
            Phase::Stopped
        ));
        assert_eq!(repo.read(), vec![]);
    }
}

#[test]
fn unawaited_inputs_change_nothing() {
    let mut repo = Repo::new(&["a"]);
    repo.start();
    repo.read();
    assert_eq!(repo.step(Input::Settled), Action::Wait);
    assert_eq!(repo.step(Input::Drained), Action::Wait);
    assert_eq!(repo.step(Input::Query(abs("/repo/a"))), Action::Settle);
    assert_eq!(repo.step(Input::Stop), Action::Settle);
    assert_eq!(repo.step(Input::Settled), Action::Poll);
    assert_eq!(repo.step(Input::Drained), Action::Answer(true));
    assert_eq!(repo.read(), vec![]);
}

#[test]
fn watches_outside_the_repository() {
    let mut repo = Repo::new(&["a"]);
    repo.ignore_files = vec![
        "/repo/.gitignore".to_string(),
        "/home/excludes".to_string(),
        "/home/git/ignore".to_string(),
        "/".to_string(),
    ];
    repo.start();
    let state = &repo.tracker.as_ref().unwrap().state;
    let existing = set(&["/repo/.gitignore", "/home/excludes"]);
    let mut watched = set(&["/old", "/home/git"]);
    let plan = refresh_aux_watches(state, &existing, &watched);
    assert_eq!(listed(&plan.unwatch), vec!["/old"]);
    assert_eq!(listed(&plan.watch), vec!["/home/excludes"]);
    commit_aux_watches(&mut watched, &plan, plan.watch.len());
    assert_eq!(listed(&watched), vec!["/home/excludes", "/home/git"]);

    let again = refresh_aux_watches(state, &existing, &watched);
    assert_eq!(again.unwatch.len(), 0);
    assert_eq!(again.watch.len(), 0);
}

#[test]
fn tracked_files_stay_in_the_project() {
    let mut repo = Repo::new(&["app/a", "b", "app/.git/c"]);
    repo.cwd = "/repo/app".to_string();
    repo.start();
    repo.read();
    repo.files.push("/repo/app/d".to_string());
    repo.report(&[
        (EventKind::Create, &["b", "app/.git/c", "app/d"]),
        (MOVED, &["app/a", "b"]),
    ]);
    assert_eq!(
        repo.read(),
        vec![
            repo.created_ev("d"),
            TrackEvent::Removed(repo.file("a")),
        ]
    );
    let files = &repo.tracker.as_ref().unwrap().state.files;
    assert_eq!(listed(files), vec!["/repo/app/d"]);
}
