# Big Brother

`bigbrother` is a Git-aware file tracker: it says which files of a working
directory are tracked under the ignore rules, and which events follow from
changes on the disk and changes of the rules.

The library under `src/` decides; it is verified with Verus. It reads no disk and
waits for nothing: what was seen of a path, the compiled ignore rules, batches of
reported changes and the end of a delay come in as arguments, and events and the
next action to perform come out. The code under `app/` performs the actions with
`tokio`, `notify`, `ignore` and `ignore-files`, and looks up source languages with
`tokei`.

Paths are byte strings in the Unix form. Two paths are equal where they have the
same components, and they are ordered by their components. `..` is a component
like any other and is not resolved.

## Modules

- `order`, `text`: byte strings, their order, and paths as lists of components.
- `path`, `path_set`: absolute paths, the paths of a project, and sets of paths.
- `rules`: ignore rules and whether a path is tracked under them.
- `track`: the events, and the set of files that a reader of them arrives at.
- `options`, `readiness`, `state`: what a tracker knows of its project.
- `events`, `batch`: what reported changes do to the tracked files.
- `aux_watch`: which paths outside the repository are watched.
- `tracker`: the course of a running tracker, step by step.
- `laws`: what holds of the tracker as a whole.

## What is taken on trust

`src/rules.rs` states what the library believes of other code:

- `std::str::from_utf8` accepts exactly the valid UTF-8.
- `ignore_files::IgnoreFilter::match_path` depends on the rules and the text of the
  path alone. The call is made for paths that display as they are; for any other
  path its verdict comes in with what was seen of the path.
- Whether one pattern matches a path, as `ignore::gitignore` compiles and matches
  it, depends on the pattern, the text of the path and the directory that the
  pattern is matched from.
