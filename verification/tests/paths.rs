use bigbrother::order::Comparison;
use bigbrother::path::{AbsDirPath, AbsPath, PathError, ProjectPath, RepoPath};
use bigbrother::path_set::PathSet;
use bigbrother::rules::{is_plain_text, FileProbe, Glob, RuleMatch};
use bigbrother::text::{components_of, ends_with, join, parent_end, slash};
use std::cmp::Ordering;
use std::path::{Component, Path};

fn abs(text: &str) -> AbsPath {
    AbsPath::try_new(text.as_bytes(), None).unwrap()
}

fn set(paths: &[&str]) -> PathSet {
    let mut res = PathSet::new();
    for path in paths {
        res.insert(abs(path));
    }
    res
}

fn project(cwd: &str, repo: &str) -> ProjectPath {
    let marker = format!("{}/.git", repo);
    ProjectPath::find(cwd.as_bytes(), None, &set(&[&marker]), true).unwrap()
}

fn dir(text: &str) -> AbsDirPath {
    abs(&format!("{}/x", text)).parent().unwrap()
}

fn probe(is_file: bool, is_source: bool) -> FileProbe {
    FileProbe {
        is_file,
        is_source,
        rule_match: RuleMatch::Unmatched,
    }
}

fn text_of(bytes: &[u8]) -> &str {
    std::str::from_utf8(bytes).unwrap()
}

/// Every text of up to `len` bytes over a small alphabet.
fn all_texts(len: usize) -> Vec<String> {
    let mut res = vec![String::new()];
    let mut start = 0;
    for _ in 0..len {
        let end = res.len();
        for i in start..end {
            for c in ['/', '.', 'a', '-'] {
                let mut next = res[i].clone();
                next.push(c);
                res.push(next);
            }
        }
        start = end;
    }
    res
}

#[test]
fn test_find_repo_root_from_nested_dir() {
    let project_path = ProjectPath::find(b"/repo/a/b/c", None, &set(&["/repo/.git"]), true).unwrap();
    assert_eq!(project_path.repo_path().path(), b"/repo");
    assert_eq!(project_path.cwd_path().path(), b"/repo/a/b/c");
}

#[test]
fn nearest_marker_wins() {
    let existing = set(&["/repo/.git", "/repo/a/.git"]);
    let project_path = ProjectPath::find(b"/repo/a/b", None, &existing, true).unwrap();
    assert_eq!(project_path.repo_path().path(), b"/repo/a");
}

#[test]
fn find_fails_without_marker() {
    let err = ProjectPath::find(b"/repo/a", None, &set(&["/other/.git"]), true).unwrap_err();
    assert_eq!(err, PathError::RepoRoot);
    assert_eq!(err.message(), "failed to find repo root");
}

#[test]
fn find_fails_without_current_dir() {
    let err = ProjectPath::find(b"a", None, &set(&["/repo/.git"]), true).unwrap_err();
    assert_eq!(err, PathError::CurrentDir);
    assert_eq!(err.message(), "failed to resolve current dir");
}

#[test]
fn find_fails_for_a_missing_dir() {
    let err = ProjectPath::find(b"/r/nope", None, &set(&["/r/.git"]), false).unwrap_err();
    assert_eq!(err, PathError::MissingDir);
    assert_eq!(err.message(), "directory does not exist");
    assert_eq!(
        ProjectPath::find(b"/r/nope", None, &set(&[]), false).unwrap_err(),
        PathError::RepoRoot
    );
    assert_eq!(
        ProjectPath::find(b"nope", None, &set(&["/r/.git"]), false).unwrap_err(),
        PathError::CurrentDir
    );
}

#[test]
fn find_takes_relative_dir_from_current_dir() {
    let here = abs("/repo/x");
    let project_path = ProjectPath::find(b"a", Some(&here), &set(&["/repo/.git"]), true).unwrap();
    assert_eq!(project_path.cwd_path().path(), b"/repo/x/a");
    assert_eq!(project_path.repo_path().path(), b"/repo");
}

#[test]
fn markers_go_up_to_the_root() {
    let markers: Vec<String> = RepoPath::markers(&dir("/repo/a"))
        .iter()
        .map(|m| text_of(m.path()).to_string())
        .collect();
    assert_eq!(markers, vec!["/repo/a/.git", "/repo/.git", "/.git"]);
}

#[test]
fn project_markers_resolve_the_dir_first() {
    let here = abs("/repo");
    let markers: Vec<String> = ProjectPath::markers(b"a", Some(&here))
        .unwrap()
        .iter()
        .map(|m| text_of(m.path()).to_string())
        .collect();
    assert_eq!(markers, vec!["/repo/a/.git", "/repo/.git", "/.git"]);
    assert_eq!(
        ProjectPath::markers(b"a", None).unwrap_err(),
        PathError::CurrentDir
    );
}

#[test]
fn root_depends_on_markers_alone() {
    let some = set(&["/repo/.git", "/repo/a/x"]);
    let more = set(&["/repo/.git", "/repo/b/.git", "/repo/a/y/.git"]);
    for existing in [&some, &more] {
        let found = RepoPath::find(&dir("/repo/a"), existing).unwrap();
        assert_eq!(found.abs_dir_path().path(), b"/repo");
    }
}

#[test]
fn repo_path_is_found_from_dir() {
    let found = RepoPath::find(&dir("/repo/a"), &set(&["/repo/.git"])).unwrap();
    assert_eq!(found.abs_dir_path().path(), b"/repo");
    assert_eq!(
        RepoPath::find(&dir("/repo/a"), &set(&[])).unwrap_err(),
        PathError::RepoRoot
    );
}

#[test]
fn components_agree_with_std() {
    for text in all_texts(7) {
        let ours: Vec<String> = components_of(text.as_bytes())
            .iter()
            .map(|part| text_of(part).to_string())
            .collect();
        let theirs: Vec<String> = Path::new(&text)
            .components()
            .map(|part| part.as_os_str().to_str().unwrap().to_string())
            .collect();
        assert_eq!(ours, theirs, "{}", text);
    }
}

#[test]
fn join_agrees_with_std() {
    for base in all_texts(4) {
        for path in all_texts(3) {
            let ours = join(base.as_bytes(), path.as_bytes());
            let theirs = Path::new(&base).join(&path);
            assert_eq!(text_of(&ours), theirs.to_str().unwrap());
        }
    }
}

#[test]
fn parent_agrees_with_std() {
    for rest in all_texts(7) {
        let text = format!("/{}", rest);
        let ours = parent_end(text.as_bytes()).map(|end| text[..end].to_string());
        let theirs = Path::new(&text)
            .parent()
            .map(|parent| parent.to_str().unwrap().to_string());
        assert_eq!(ours, theirs, "{}", text);
        let dir = abs(&text).parent().map(|dir| dir.to_path_buf());
        assert_eq!(dir, theirs.map(|parent| parent.into_bytes()));
    }
}

#[test]
fn order_and_containment_agree_with_std() {
    let texts: Vec<String> = all_texts(4).iter().map(|t| format!("/{}", t)).collect();
    let paths: Vec<AbsPath> = texts.iter().map(|t| abs(t)).collect();
    for (a, x) in texts.iter().zip(paths.iter()) {
        for (b, y) in texts.iter().zip(paths.iter()) {
            let (std_a, std_b) = (Path::new(a), Path::new(b));
            assert_eq!(x == y, std_a == std_b);
            assert_eq!(x.partial_cmp(y), std_a.partial_cmp(std_b), "{} {}", a, b);
            let dir = dir(b);
            assert_eq!(x.is_or_within(&dir), std_a.starts_with(std_b), "{} {}", a, b);
            assert_eq!(dir.is_or_contains(x), std_a.starts_with(std_b));
        }
    }
}

#[test]
fn parent_dir_sorts_before_names() {
    assert_eq!(abs("/..").compare(&abs("/-")), Comparison::Less);
    assert_eq!(abs("/a").partial_cmp(&abs("/a/b")), Some(Ordering::Less));
    assert_eq!(abs("/a//b/").compare(&abs("/a/./b")), Comparison::Equal);
    assert_eq!(abs("/b").compare(&abs("/a/z")), Comparison::Greater);
}

#[test]
fn equal_paths_keep_their_texts() {
    let path = abs("/a//b");
    assert!(path == abs("/a/b"));
    assert_eq!(path.path(), b"/a//b");
    assert_eq!(path.path_buf(), &b"/a//b".to_vec());
    assert_eq!(path.clone().path(), b"/a//b");
    assert_eq!(path.as_ref().path(), b"/a//b");
}

#[test]
fn absolute_path_is_taken_as_it_is() {
    assert_eq!(AbsPath::new(&dir("/repo"), b"/else").path(), b"/else");
    assert_eq!(AbsPath::new(&dir("/repo"), b"a/b").path(), b"/repo/a/b");
    assert_eq!(AbsPath::new(&dir("/"), b"a").path(), b"/a");
}

#[test]
fn try_new_resolves_relative_paths() {
    let here = abs("/here");
    assert_eq!(
        AbsPath::try_new(b"a", Some(&here)).unwrap().path(),
        b"/here/a"
    );
    assert_eq!(AbsPath::try_new(b"/a", None).unwrap().path(), b"/a");
    assert_eq!(
        AbsPath::try_new(b"a", None).unwrap_err(),
        PathError::CurrentDir
    );
}

#[test]
fn paths_resolve_within_cwd_and_repo() {
    let project_path = project("/repo/app", "/repo");
    let inside = project_path.abs_path_within_cwd(b"a.txt").unwrap();
    assert_eq!(inside.path(), b"/repo/app/a.txt");
    assert!(project_path.abs_path_within_cwd(b"/repo/a.txt").is_none());
    let beside = project_path.abs_path_within_repo(b"/repo/a.txt").unwrap();
    assert_eq!(beside.path(), b"/repo/a.txt");
    assert!(project_path.abs_path_within_repo(b"/else/a.txt").is_none());
    assert!(project_path.abs_path_within_repo(b"/repository").is_none());
}

#[test]
fn relative_paths_are_always_within_cwd() {
    let project_path = project("/repo/app", "/repo");
    for text in all_texts(4) {
        if !text.starts_with('/') {
            assert!(project_path.abs_path_within_cwd(text.as_bytes()).is_some());
        }
    }
}

#[test]
fn segments_lead_from_cwd_to_parent() {
    let project_path = project("/repo/app", "/repo");
    let segments = |path: &str| -> Vec<String> {
        project_path
            .dir_segments_to(&abs(path))
            .iter()
            .map(|dir| text_of(dir.path()).to_string())
            .collect()
    };
    assert_eq!(
        segments("/repo/app/a/b/c.txt"),
        vec!["/repo/app", "/repo/app/a", "/repo/app/a/b"]
    );
    assert_eq!(segments("/repo/app/c.txt"), vec!["/repo/app"]);
    assert!(segments("/repo/app").is_empty());
    assert!(segments("/repo/c.txt").is_empty());
    assert!(segments("/").is_empty());
}

#[test]
fn dir_path_accessors() {
    let dir = dir("/repo/app");
    assert_eq!(dir.path(), b"/repo/app");
    assert_eq!(dir.path_buf(), &b"/repo/app".to_vec());
    assert_eq!(dir.to_path_buf(), b"/repo/app".to_vec());
    assert_eq!(dir.to_abs_path().path(), b"/repo/app");
    assert_eq!(dir.parent().unwrap().path(), b"/repo");
    assert!(dir.clone() == dir);
    assert_eq!(dir.as_ref().path(), b"/repo/app");
}

#[test]
fn scm_paths() {
    for marker in [".git", ".hg", ".svn", "_darcs", ".bzr", ".fossil-settings"] {
        assert!(abs(&format!("/repo/{}", marker)).is_scm_path());
        assert!(abs(&format!("/repo/{}/x/y", marker)).is_scm_path());
    }
    assert!(!abs("/repo/.gitignore").is_scm_path());
    assert!(!abs("/repo/.github/x").is_scm_path());
    assert!(!abs("/").is_scm_path());
}

#[test]
fn ignore_files() {
    for name in [".gitignore", ".hgignore", ".ignore"] {
        let path = abs(&format!("/repo/a/{}", name));
        assert!(path.is_ignore_file());
        assert!(path.is_ignore_related());
        assert!(!abs(&format!("/repo/{}/a", name)).is_ignore_file());
    }
    assert!(abs("/repo/.gitignore/").is_ignore_file());
    assert!(!abs("/repo/.gitignore/..").is_ignore_file());
    assert!(!abs("/repo/gitignore").is_ignore_related());
    assert!(!abs("/").is_ignore_related());
}

#[test]
fn git_settings_files() {
    assert!(abs("/repo/.git/info/exclude").is_git_exclude_file());
    assert!(abs("/repo/.git/info/exclude").is_ignore_related());
    assert!(!abs("/repo/.git/info/exclude/").is_git_exclude_file());
    assert!(!abs("/repo/x.git/info/exclude").is_git_exclude_file());
    assert!(abs("/repo/.git/config").is_git_config_file());
    assert!(abs("/repo/.git/config").is_ignore_related());
    assert!(!abs("/repo/.git/config.lock").is_git_config_file());
    assert!(!abs("/repo/.git//config").is_git_config_file());
}

#[test]
fn suffixes_agree_with_std() {
    for text in all_texts(5) {
        for suffix in all_texts(3) {
            assert_eq!(
                ends_with(text.as_bytes(), suffix.as_bytes()),
                text.ends_with(&suffix)
            );
        }
    }
}

#[test]
fn project_files() {
    let project_path = project("/repo/app", "/repo");
    let seen = probe(true, false);
    assert!(project_path.is_project_file(&abs("/repo/app/a.txt"), &seen));
    assert!(!project_path.is_project_file(&abs("/repo/a.txt"), &seen));
    assert!(!project_path.is_project_file(&abs("/repo/app/.git/a"), &seen));
    assert!(!project_path.is_project_file(&abs("/repo/app/a.txt"), &probe(false, false)));
}

#[test]
fn source_files() {
    assert!(abs("/repo/a.rs").is_source_file(&probe(true, true)));
    assert!(!abs("/repo/a.bin").is_source_file(&probe(true, false)));
}

fn glob(from: Option<&str>, pattern: &str) -> Glob {
    Glob {
        from: from.map(|dir| dir.as_bytes().to_vec()),
        base: from.unwrap_or("/").as_bytes().to_vec(),
        pattern: pattern.to_string(),
    }
}

/// A rule for all projects, in the project at `/r`.
fn global(pattern: &str) -> Glob {
    Glob {
        from: Some(b"/".to_vec()),
        base: b"/r".to_vec(),
        pattern: pattern.to_string(),
    }
}

#[test]
fn global_globs_match_from_the_repository() {
    assert!(abs("/r/build").matches_glob(&global("/build")));
    assert!(abs("/r/build/a").matches_glob(&global("/build")));
    assert!(!abs("/r/sub/build").matches_glob(&global("/build")));
    assert!(abs("/r/sub/a.log").matches_glob(&global("*.log")));
    assert!(!abs("/r/a.txt").matches_glob(&global("*.log")));
}

#[test]
fn globs_match_whole_paths_outside_their_base() {
    assert!(abs("/x/a.log").matches_glob(&global("*.log")));
    assert!(!abs("/x/a.txt").matches_glob(&global("*.log")));
    assert!(!abs("/build").matches_glob(&global("/build")));
    assert!(!abs("/x/logs/a").matches_glob(&global("logs/")));
    assert!(abs("/x/a").matches_glob(&global("!a")));
    assert!(!abs("/x/a").matches_glob(&global("a{")));
}

#[test]
fn globs_cover_their_directory() {
    let path = abs("/repo/app/a.txt");
    assert!(path.matches_glob(&glob(None, "*.txt")));
    assert!(path.matches_glob(&glob(Some("/repo/app"), "*.txt")));
    assert!(path.matches_glob(&glob(Some("/repo//app/"), "/a.txt")));
    assert!(path.matches_glob(&glob(Some(""), "*.txt")));
    assert!(!path.matches_glob(&glob(Some("/repo/ap"), "*.txt")));
    assert!(!path.matches_glob(&glob(Some("."), "*.txt")));
    assert!(!path.matches_glob(&glob(Some("repo"), "*.txt")));
}

#[test]
fn globs_match_by_their_pattern() {
    let rule = glob(Some("/r/sub"), "*.log");
    assert!(abs("/r/sub/a.log").matches_glob(&rule));
    assert!(abs("/r/sub/deep/a.log").matches_glob(&rule));
    assert!(!abs("/r/a.log").matches_glob(&rule));
    assert!(!abs("/r/sub/a.txt").matches_glob(&rule));

    let anchored = glob(Some("/r"), "/a.log");
    assert!(abs("/r/a.log").matches_glob(&anchored));
    assert!(!abs("/r/sub/a.log").matches_glob(&anchored));
    assert!(abs("/a.log").matches_glob(&glob(None, "/a.log")));
    assert!(abs("/a.log").matches_glob(&glob(Some("/"), "/a.log")));
    assert!(!abs("/r/a.log").matches_glob(&glob(Some(""), "/a.log")));

    let directory = glob(Some("/r"), "logs/");
    assert!(abs("/r/logs/a.txt").matches_glob(&directory));
    assert!(!abs("/r/logs").matches_glob(&directory));

    assert!(abs("/r/keep.log").matches_glob(&glob(Some("/r"), "!keep.log")));
    assert!(!abs("/r/a").matches_glob(&glob(Some("/r"), "# a")));
    assert!(!abs("/r/a").matches_glob(&glob(Some("/r"), "")));
    assert!(!abs("/r/a").matches_glob(&glob(Some("/r"), "a{")));
    assert!(!abs("/r").matches_glob(&glob(Some("/r"), "*.log")));
}

#[test]
fn components_are_written_with_separators() {
    for text in all_texts(6) {
        let absolute = format!("/{}", text);
        let parts = components_of(absolute.as_bytes());
        for first in 1..parts.len() + 1 {
            let written = slash(&parts, first);
            assert_eq!(components_of(&written), parts[first..].to_vec());
        }
    }
    assert_eq!(slash(&components_of(b"/a//b/./c"), 1), b"a/b/c".to_vec());
}

#[test]
fn plain_texts() {
    assert!(is_plain_text(b""));
    assert!(is_plain_text("/repo/gr\u{fc}n".as_bytes()));
    assert!(!is_plain_text(b"/repo/\xff"));
    assert!(!is_plain_text("/repo/\u{fffd}".as_bytes()));
    assert!(is_plain_text("/repo/\u{fffc}".as_bytes()));
}

#[test]
fn root_is_its_own_component() {
    assert!(Path::new("/").components().next() == Some(Component::RootDir));
    assert_eq!(components_of(b"/"), vec![b"/".to_vec()]);
    assert!(abs("/").parent().is_none());
}
