//! Absolute paths, and the paths that make up a project.

use vstd::prelude::*;

use crate::order;
use crate::order::{begins_with, compare_parts, copy_bytes, same_bytes, Comparison};
use crate::path_set;
use crate::path_set::PathSet;
use crate::rules;
use crate::rules::{match_glob, match_glob_outside, FileProbe, Glob};
use crate::text;
use crate::text::{components_of, ends_with, join, parent_end, slash, starts_at_root};

verus! {

/// Why a path could not be resolved.
#[derive(Debug, Clone, Copy, PartialEq, Eq, Structural)]
pub enum PathError {
    /// A relative path was given and the current directory is not known.
    CurrentDir,
    /// No directory on the way up holds a repository.
    RepoRoot,
    /// The directory does not exist.
    MissingDir,
}

/// The name of the marker of a repository: `.git`.
pub open spec fn git_marker() -> Seq<u8> {
    seq!['.' as u8, 'g' as u8, 'i' as u8, 't' as u8]
}

/// The names that version control systems keep their data under: `.git`,
/// `.hg`, `.svn`, `_darcs`, `.bzr` and `.fossil-settings`.
pub open spec fn is_scm_marker(part: Seq<u8>) -> bool {
    ||| part == git_marker()
    ||| part == seq!['.' as u8, 'h' as u8, 'g' as u8]
    ||| part == seq!['.' as u8, 's' as u8, 'v' as u8, 'n' as u8]
    ||| part == seq!['_' as u8, 'd' as u8, 'a' as u8, 'r' as u8, 'c' as u8, 's' as u8]
    ||| part == seq!['.' as u8, 'b' as u8, 'z' as u8, 'r' as u8]
    ||| part == seq![
        '.' as u8,
        'f' as u8,
        'o' as u8,
        's' as u8,
        's' as u8,
        'i' as u8,
        'l' as u8,
        '-' as u8,
        's' as u8,
        'e' as u8,
        't' as u8,
        't' as u8,
        'i' as u8,
        'n' as u8,
        'g' as u8,
        's' as u8,
    ]
}

/// The names of ignore files: `.gitignore`, `.hgignore` and `.ignore`.
pub open spec fn is_ignore_name(part: Seq<u8>) -> bool {
    ||| part == seq![
        '.' as u8,
        'g' as u8,
        'i' as u8,
        't' as u8,
        'i' as u8,
        'g' as u8,
        'n' as u8,
        'o' as u8,
        'r' as u8,
        'e' as u8,
    ]
    ||| part == seq![
        '.' as u8,
        'h' as u8,
        'g' as u8,
        'i' as u8,
        'g' as u8,
        'n' as u8,
        'o' as u8,
        'r' as u8,
        'e' as u8,
    ]
    ||| part == seq![
        '.' as u8,
        'i' as u8,
        'g' as u8,
        'n' as u8,
        'o' as u8,
        'r' as u8,
        'e' as u8,
    ]
}

/// The end of the text of a Git exclude file: `/.git/info/exclude`.
pub open spec fn exclude_suffix() -> Seq<u8> {
    seq![
        '/' as u8,
        '.' as u8,
        'g' as u8,
        'i' as u8,
        't' as u8,
        '/' as u8,
        'i' as u8,
        'n' as u8,
        'f' as u8,
        'o' as u8,
        '/' as u8,
        'e' as u8,
        'x' as u8,
        'c' as u8,
        'l' as u8,
        'u' as u8,
        'd' as u8,
        'e' as u8,
    ]
}

/// The end of the text of a Git config file: `/.git/config`.
pub open spec fn config_suffix() -> Seq<u8> {
    seq![
        '/' as u8,
        '.' as u8,
        'g' as u8,
        'i' as u8,
        't' as u8,
        '/' as u8,
        'c' as u8,
        'o' as u8,
        'n' as u8,
        'f' as u8,
        'i' as u8,
        'g' as u8,
    ]
}

/// The absolute text of a path: its own where it is absolute, otherwise taken
/// from the current directory, where that is known.
pub open spec fn resolved(path: Seq<u8>, current_dir: Option<Seq<u8>>) -> Option<Seq<u8>> {
    if text::is_absolute(path) {
        Some(path)
    } else {
        match current_dir {
            Some(dir) => Some(text::joined(dir, path)),
            None => None,
        }
    }
}

/// The text of a path that may be missing.
pub open spec fn optional_text(path: Option<&AbsPath>) -> Option<Seq<u8>> {
    match path {
        Some(path) => Some(path@),
        None => None,
    }
}

/// Whether a path is a directory or lies within it: its components begin with
/// those of the directory.
pub open spec fn is_within(path: Seq<u8>, dir: Seq<u8>) -> bool {
    text::components(dir).is_prefix_of(text::components(path))
}

/// Whether a path is or lies within the data of a version control system.
pub open spec fn has_scm_marker(path: Seq<u8>) -> bool {
    exists|i: int|
        0 <= i < text::components(path).len() && is_scm_marker(
            #[trigger] text::components(path)[i],
        )
}

/// Whether the last component of a path is the name of an ignore file.
pub open spec fn names_ignore_file(path: Seq<u8>) -> bool {
    &&& text::components(path).len() > 0
    &&& is_ignore_name(text::components(path).last())
}

/// Whether a path is a Git exclude file or a Git config file.
pub open spec fn names_git_settings(path: Seq<u8>) -> bool {
    ||| exclude_suffix().is_suffix_of(path)
    ||| config_suffix().is_suffix_of(path)
}

/// Whether a rule covers a path: it was written for no directory, or the path
/// lies within that directory.
pub open spec fn is_covered(path: Seq<u8>, from: Option<Seq<u8>>) -> bool {
    match from {
        Some(dir) => is_within(path, dir),
        None => true,
    }
}

/// The text of an absolute path taken from a directory that it lies within. From
/// the empty text it is taken as from the root.
pub open spec fn below(path: Seq<u8>, dir: Seq<u8>) -> Seq<u8> {
    let n = text::components(dir).len();
    text::slashed(text::components(path).skip(if n > 0 { n as int } else { 1 }))
}

/// Whether the pattern of a rule matches a path: the path or a directory above it,
/// taken from the directory that the pattern is matched from, or, where the path
/// does not lie within that directory, the whole path.
pub open spec fn pattern_matches(path: Seq<u8>, glob: rules::GlobView) -> bool {
    if is_within(path, glob.base) {
        rules::glob_matches(glob.pattern, below(path, glob.base))
    } else {
        rules::glob_matches_outside(glob.base, glob.pattern, path)
    }
}

/// An absolute path. It may or may not exist.
///
/// Two absolute paths are equal where they have the same components; their
/// texts may differ.
#[derive(Debug)]
pub struct AbsPath {
    text: Vec<u8>,
    parts: Vec<Vec<u8>>,
}

impl PathError {
    /// What went wrong, in words.
    pub fn message(&self) -> (res: String)
        ensures
            res@ == (match self {
                PathError::CurrentDir => "failed to resolve current dir"@,
                PathError::RepoRoot => "failed to find repo root"@,
                PathError::MissingDir => "directory does not exist"@,
            }),
    {
        match self {
            PathError::CurrentDir => "failed to resolve current dir".to_owned(),
            PathError::RepoRoot => "failed to find repo root".to_owned(),
            PathError::MissingDir => "directory does not exist".to_owned(),
        }
    }
}

impl View for AbsPath {
    type V = Seq<u8>;

    closed spec fn view(&self) -> Seq<u8> {
        self.text@
    }
}

impl AbsPath {
    #[verifier::type_invariant]
    spec fn is_parsed(self) -> bool {
        &&& text::is_absolute(self.text@)
        &&& order::byte_views(self.parts@) == text::components(self.text@)
    }

    /// The path that an absolute text names.
    fn from_text(text: Vec<u8>) -> (res: AbsPath)
        requires
            text::is_absolute(text@),
        ensures
            res@ == text@,
    {
        let parts: Vec<Vec<u8>> = components_of(text.as_slice());
        AbsPath { text, parts }
    }

    /// Resolves a path. A relative path is taken from the current directory,
    /// where that is known.
    pub fn try_new(path_src: &[u8], current_dir: Option<&AbsPath>) -> (res: Result<AbsPath, PathError>)
        ensures
            match res {
                Ok(path) => {
                    &&& resolved(path_src@, optional_text(current_dir)) == Some(path@)
                    &&& text::is_absolute(path@)
                },
                Err(err) => {
                    &&& err == PathError::CurrentDir
                    &&& resolved(path_src@, optional_text(current_dir)) is None
                },
            },
    {
        if starts_at_root(path_src) {
            return Ok(AbsPath::from_text(copy_bytes(path_src)));
        }
        match current_dir {
            Some(dir) => {
                proof {
                    use_type_invariant(dir);
                    text::joined_components(dir@, path_src@);
                }
                Ok(AbsPath::from_text(join(dir.text.as_slice(), path_src)))
            },
            None => Err(PathError::CurrentDir),
        }
    }

    /// Joins a path to a directory. An absolute path is taken as it is.
    pub fn new(base: &AbsDirPath, path: &[u8]) -> (res: AbsPath)
        ensures
            res@ == text::joined(base@, path@),
            text::is_absolute(res@),
    {
        proof {
            use_type_invariant(&base.abs_path);
            if !text::is_absolute(path@) {
                text::joined_components(base@, path@);
            }
        }
        AbsPath::from_text(join(base.abs_path.text.as_slice(), path))
    }

    /// Whether the path is the given directory or lies within it.
    pub fn is_or_within(&self, dir: &AbsDirPath) -> (res: bool)
        ensures
            res == is_within(self@, dir@),
    {
        proof {
            use_type_invariant(self);
            use_type_invariant(&dir.abs_path);
        }
        begins_with(&self.parts, &dir.abs_path.parts)
    }

    /// The parent directory, if there is one.
    pub fn parent(&self) -> (res: Option<AbsDirPath>)
        ensures
            text::is_absolute(self@),
            match res {
                Some(dir) => text::parent_text(self@) == Some(dir@) && text::is_absolute(dir@),
                None => text::parent_text(self@) is None,
            },
    {
        proof {
            use_type_invariant(self);
            text::parent_properties(self@);
        }
        match parent_end(self.text.as_slice()) {
            Some(end) => {
                let mut text: Vec<u8> = copy_bytes(self.text.as_slice());
                text.truncate(end);
                assert(text@ == self@.take(end as int));
                Some(AbsDirPath { abs_path: AbsPath::from_text(text) })
            },
            None => None,
        }
    }

    /// The text of the path.
    pub fn path_buf(&self) -> (res: &Vec<u8>)
        ensures
            res@ == self@,
            text::is_absolute(self@),
    {
        proof {
            use_type_invariant(self);
        }
        &self.text
    }

    /// The text of the path.
    pub fn path(&self) -> (res: &[u8])
        ensures
            res@ == self@,
            text::is_absolute(self@),
    {
        proof {
            use_type_invariant(self);
        }
        self.text.as_slice()
    }

    /// Whether the path is or lies within the data of a version control system.
    pub fn is_scm_path(&self) -> (res: bool)
        ensures
            res == has_scm_marker(self@),
    {
        proof {
            use_type_invariant(self);
        }
        let ghost parts = text::components(self@);
        let mut i: usize = 0;
        while i < self.parts.len()
            invariant
                i <= self.parts.len(),
                order::byte_views(self.parts@) == parts,
                parts == text::components(self@),
                forall|j: int| 0 <= j < i ==> !is_scm_marker(#[trigger] parts[j]),
            decreases self.parts.len() - i,
        {
            if is_marker(self.parts[i].as_slice()) {
                assert(is_scm_marker(parts[i as int]));
                return true;
            }
            assert(!is_scm_marker(parts[i as int]));
            i = i + 1;
        }
        false
    }

    /// Whether a change of the path can change what is ignored.
    pub fn is_ignore_related(&self) -> (res: bool)
        ensures
            res == (names_ignore_file(self@) || names_git_settings(self@)),
    {
        self.is_ignore_file() || self.is_git_exclude_file() || self.is_git_config_file()
    }

    /// Whether the path is an ignore file.
    pub fn is_ignore_file(&self) -> (res: bool)
        ensures
            res == names_ignore_file(self@),
    {
        proof {
            use_type_invariant(self);
        }
        let n: usize = self.parts.len();
        assert(n == text::components(self@).len());
        if n == 0 {
            return false;
        }
        assert(self.parts@[n - 1]@ == text::components(self@).last());
        let name: &[u8] = self.parts[n - 1].as_slice();
        same_bytes(
            name,
            &[
                '.' as u8,
                'g' as u8,
                'i' as u8,
                't' as u8,
                'i' as u8,
                'g' as u8,
                'n' as u8,
                'o' as u8,
                'r' as u8,
                'e' as u8,
            ],
        ) || same_bytes(
            name,
            &[
                '.' as u8,
                'h' as u8,
                'g' as u8,
                'i' as u8,
                'g' as u8,
                'n' as u8,
                'o' as u8,
                'r' as u8,
                'e' as u8,
            ],
        ) || same_bytes(
            name,
            &['.' as u8, 'i' as u8, 'g' as u8, 'n' as u8, 'o' as u8, 'r' as u8, 'e' as u8],
        )
    }

    /// Whether the path is a Git exclude file.
    pub fn is_git_exclude_file(&self) -> (res: bool)
        ensures
            res == exclude_suffix().is_suffix_of(self@),
    {
        let suffix: [u8; 18] = [
            '/' as u8,
            '.' as u8,
            'g' as u8,
            'i' as u8,
            't' as u8,
            '/' as u8,
            'i' as u8,
            'n' as u8,
            'f' as u8,
            'o' as u8,
            '/' as u8,
            'e' as u8,
            'x' as u8,
            'c' as u8,
            'l' as u8,
            'u' as u8,
            'd' as u8,
            'e' as u8,
        ];
        assert(suffix@ == exclude_suffix());
        ends_with(self.text.as_slice(), &suffix)
    }

    /// Whether the path is a Git config file.
    pub fn is_git_config_file(&self) -> (res: bool)
        ensures
            res == config_suffix().is_suffix_of(self@),
    {
        let suffix: [u8; 12] = [
            '/' as u8,
            '.' as u8,
            'g' as u8,
            'i' as u8,
            't' as u8,
            '/' as u8,
            'c' as u8,
            'o' as u8,
            'n' as u8,
            'f' as u8,
            'i' as u8,
            'g' as u8,
        ];
        assert(suffix@ == config_suffix());
        ends_with(self.text.as_slice(), &suffix)
    }

    /// Whether the path is a source file, by what was seen of it.
    pub fn is_source_file(&self, probe: &FileProbe) -> (res: bool)
        ensures
            res == probe.is_source,
    {
        probe.is_source
    }

    /// Whether the path matches an ignore rule: the rule covers the path, and its
    /// pattern matches it.
    pub fn matches_glob(&self, glob: &Glob) -> (res: bool)
        ensures
            res == (is_covered(self@, glob@.from) && pattern_matches(self@, glob@)),
    {
        proof {
            use_type_invariant(self);
        }
        if !self.is_covered_by(&glob.from) {
            return false;
        }
        let base: Vec<Vec<u8>> = components_of(glob.base.as_slice());
        if !begins_with(&self.parts, &base) {
            return match_glob_outside(
                glob.base.as_slice(),
                glob.pattern.as_str(),
                self.text.as_slice(),
            );
        }
        let depth: usize = if base.len() > 0 {
            base.len()
        } else {
            1
        };
        proof {
            let parts = text::components(self@);
            let rest = parts.skip(depth as int);
            text::parent_properties(self@);
            text::body_is_clean(self@);
            assert forall|i: int| 0 <= i < rest.len() implies text::is_clean(
                #[trigger] rest[i],
            ) by {
                assert(rest[i] == text::body(self@)[depth - 1 + i]);
            }
            text::slashed_components(rest);
        }
        let below: Vec<u8> = slash(&self.parts, depth);
        match_glob(glob.pattern.as_str(), below.as_slice())
    }

    /// Whether a rule that was written for the given directory, if for any, covers
    /// the path.
    pub(crate) fn is_covered_by(&self, from: &Option<Vec<u8>>) -> (res: bool)
        ensures
            res == is_covered(self@, rules::optional_dir(*from)),
    {
        proof {
            use_type_invariant(self);
        }
        match from {
            Some(from) => begins_with(&self.parts, &components_of(from.as_slice())),
            None => true,
        }
    }

    /// Compares two paths by their components.
    pub fn compare(&self, other: &AbsPath) -> (res: Comparison)
        ensures
            match res {
                Comparison::Less => order::parts_less(
                    text::components(self@),
                    text::components(other@),
                ),
                Comparison::Equal => text::components(self@) == text::components(other@),
                Comparison::Greater => order::parts_less(
                    text::components(other@),
                    text::components(self@),
                ),
            },
    {
        proof {
            use_type_invariant(self);
            use_type_invariant(other);
        }
        compare_parts(&self.parts, &other.parts)
    }
}

/// Whether a component is a marker of a version control system.
fn is_marker(part: &[u8]) -> (res: bool)
    ensures
        res == is_scm_marker(part@),
{
    same_bytes(part, &['.' as u8, 'g' as u8, 'i' as u8, 't' as u8]) || same_bytes(
        part,
        &['.' as u8, 'h' as u8, 'g' as u8],
    ) || same_bytes(part, &['.' as u8, 's' as u8, 'v' as u8, 'n' as u8]) || same_bytes(
        part,
        &['_' as u8, 'd' as u8, 'a' as u8, 'r' as u8, 'c' as u8, 's' as u8],
    ) || same_bytes(part, &['.' as u8, 'b' as u8, 'z' as u8, 'r' as u8]) || same_bytes(
        part,
        &[
            '.' as u8,
            'f' as u8,
            'o' as u8,
            's' as u8,
            's' as u8,
            'i' as u8,
            'l' as u8,
            '-' as u8,
            's' as u8,
            'e' as u8,
            't' as u8,
            't' as u8,
            'i' as u8,
            'n' as u8,
            'g' as u8,
            's' as u8,
        ],
    )
}

impl Clone for AbsPath {
    fn clone(&self) -> (res: Self)
        ensures
            res@ == self@,
    {
        proof {
            use_type_invariant(self);
        }
        AbsPath::from_text(copy_bytes(self.text.as_slice()))
    }
}

impl AsRef<AbsPath> for AbsPath {
    fn as_ref(&self) -> (res: &AbsPath)
        ensures
            res == self,
    {
        self
    }
}

impl PartialEq for AbsPath {
    fn eq(&self, other: &Self) -> (res: bool) {
        match self.compare(other) {
            Comparison::Equal => true,
            Comparison::Less => {
                proof {
                    order::parts_less_irreflexive(text::components(self@));
                }
                false
            },
            Comparison::Greater => {
                proof {
                    order::parts_less_irreflexive(text::components(self@));
                }
                false
            },
        }
    }
}

impl vstd::std_specs::cmp::PartialEqSpecImpl for AbsPath {
    open spec fn obeys_eq_spec() -> bool {
        true
    }

    open spec fn eq_spec(&self, other: &Self) -> bool {
        text::components(self@) == text::components(other@)
    }
}

impl Eq for AbsPath {

}

impl PartialOrd for AbsPath {
    fn partial_cmp(&self, other: &Self) -> (res: Option<std::cmp::Ordering>) {
        match self.compare(other) {
            Comparison::Less => {
                proof {
                    order::parts_less_asymmetric(text::components(self@), text::components(other@));
                }
                Some(std::cmp::Ordering::Less)
            },
            Comparison::Equal => Some(std::cmp::Ordering::Equal),
            Comparison::Greater => {
                proof {
                    order::parts_less_asymmetric(text::components(other@), text::components(self@));
                }
                Some(std::cmp::Ordering::Greater)
            },
        }
    }
}

impl vstd::std_specs::cmp::PartialOrdSpecImpl for AbsPath {
    open spec fn obeys_partial_cmp_spec() -> bool {
        true
    }

    open spec fn partial_cmp_spec(&self, other: &Self) -> Option<std::cmp::Ordering> {
        if text::components(self@) == text::components(other@) {
            Some(std::cmp::Ordering::Equal)
        } else if order::parts_less(text::components(self@), text::components(other@)) {
            Some(std::cmp::Ordering::Less)
        } else {
            Some(std::cmp::Ordering::Greater)
        }
    }
}

/// The absolute path of a directory: the tracked directory of a project, which
/// was seen to exist, or one above a path.
#[derive(Debug)]
pub struct AbsDirPath {
    abs_path: AbsPath,
}

impl View for AbsDirPath {
    type V = Seq<u8>;

    closed spec fn view(&self) -> Seq<u8> {
        self.abs_path@
    }
}

impl AbsDirPath {
    /// The text of the path.
    pub fn path_buf(&self) -> (res: &Vec<u8>)
        ensures
            res@ == self@,
            text::is_absolute(self@),
    {
        self.abs_path.path_buf()
    }

    /// The text of the path.
    pub fn path(&self) -> (res: &[u8])
        ensures
            res@ == self@,
            text::is_absolute(self@),
    {
        self.abs_path.path()
    }

    /// A copy of the text of the path.
    pub fn to_path_buf(&self) -> (res: Vec<u8>)
        ensures
            res@ == self@,
            text::is_absolute(self@),
    {
        copy_bytes(self.abs_path.path())
    }

    /// The path as an `AbsPath`.
    pub fn to_abs_path(&self) -> (res: AbsPath)
        ensures
            res@ == self@,
    {
        self.abs_path.clone()
    }

    /// Whether the given path is this directory or lies within it.
    pub fn is_or_contains(&self, path: &AbsPath) -> (res: bool)
        ensures
            res == is_within(path@, self@),
    {
        path.is_or_within(self)
    }

    /// The parent directory, if there is one.
    pub fn parent(&self) -> (res: Option<AbsDirPath>)
        ensures
            text::is_absolute(self@),
            match res {
                Some(dir) => text::parent_text(self@) == Some(dir@) && text::is_absolute(dir@),
                None => text::parent_text(self@) is None,
            },
    {
        self.abs_path.parent()
    }
}

impl Clone for AbsDirPath {
    fn clone(&self) -> (res: Self)
        ensures
            res@ == self@,
    {
        AbsDirPath { abs_path: self.abs_path.clone() }
    }
}

impl AsRef<AbsPath> for AbsDirPath {
    fn as_ref(&self) -> (res: &AbsPath)
        ensures
            res@ == self@,
    {
        &self.abs_path
    }
}

impl PartialEq for AbsDirPath {
    fn eq(&self, other: &Self) -> (res: bool) {
        self.abs_path == other.abs_path
    }
}

impl vstd::std_specs::cmp::PartialEqSpecImpl for AbsDirPath {
    open spec fn obeys_eq_spec() -> bool {
        true
    }

    open spec fn eq_spec(&self, other: &Self) -> bool {
        text::components(self@) == text::components(other@)
    }
}

impl Eq for AbsDirPath {

}

/// The texts of a list of directories.
pub open spec fn dir_texts(dirs: Seq<AbsDirPath>) -> Seq<Seq<u8>> {
    dirs.map_values(|dir: AbsDirPath| dir@)
}

/// The nearest directory, from `dir` upwards, whose repository marker exists.
pub open spec fn repo_root(dir: Seq<u8>, existing: path_set::PathMap) -> Option<Seq<u8>>
    decreases dir.len(),
{
    if path_set::has_path(existing, text::joined(dir, git_marker())) {
        Some(dir)
    } else {
        match text::parent_text(dir) {
            Some(parent) => if parent.len() < dir.len() {
                repo_root(parent, existing)
            } else {
                None
            },
            None => None,
        }
    }
}

/// The repository markers of `dir` and of each directory above it.
pub open spec fn repo_markers(dir: Seq<u8>) -> Seq<Seq<u8>>
    decreases dir.len(),
{
    let marker = seq![text::joined(dir, git_marker())];
    match text::parent_text(dir) {
        Some(parent) => if parent.len() < dir.len() {
            marker + repo_markers(parent)
        } else {
            marker
        },
        None => marker,
    }
}

/// The directories between `cwd` and `path`, outermost first: `cwd`, the next
/// directory on the way to `path`, and so on up to the parent of `path`. There
/// are none where `path` does not lie within `cwd`.
pub open spec fn dir_segments(cwd: Seq<u8>, path: Seq<u8>) -> Seq<Seq<u8>>
    decreases path.len(),
{
    match text::parent_text(path) {
        Some(parent) => if is_within(parent, cwd) && parent.len() < path.len() {
            dir_segments(cwd, parent).push(parent)
        } else {
            Seq::empty()
        },
        None => Seq::empty(),
    }
}

/// Whether a path is a file of the project in `cwd`: it lies within `cwd`,
/// holds no data of a version control system, and is a regular file.
pub open spec fn is_file_of(cwd: Seq<u8>, path: Seq<u8>, is_file: bool) -> bool {
    is_within(path, cwd) && !has_scm_marker(path) && is_file
}

/// The component list of `.git`.
proof fn lemma_git_marker()
    ensures
        !text::is_absolute(git_marker()),
        text::body(git_marker()) == seq![git_marker()],
{
    text::name_is_body(git_marker());
}

/// A path lies within each of its parents' directories, and nothing but the
/// path itself lies between.
pub proof fn parent_is_nearest(path: Seq<u8>, dir: Seq<u8>)
    requires
        text::is_absolute(path),
        text::parent_text(path) is Some,
        is_within(path, dir),
    ensures
        is_within(path, text::parent_text(path)->0),
        !is_within(text::parent_text(path)->0, path),
        is_within(text::parent_text(path)->0, dir) || text::components(dir) == text::components(
            path,
        ),
{
    text::parent_properties(path);
    let parent = text::parent_text(path)->0;
    let pc = text::components(path);
    let dc = text::components(dir);
    assert(pc.drop_last() == pc.subrange(0, pc.len() - 1));
    if dc.len() == pc.len() {
        assert(pc.subrange(0, pc.len() as int) == pc);
    } else {
        assert(pc.drop_last().subrange(0, dc.len() as int) == pc.subrange(0, dc.len() as int));
    }
}

/// The repository root is a directory at or above the given one with a marker,
/// and no nearer directory has one. There is no root only where no directory
/// at or above has a marker.
pub proof fn repo_root_is_nearest(dir: Seq<u8>, existing: path_set::PathMap, other: Seq<u8>)
    requires
        text::is_absolute(dir),
        text::is_absolute(other),
        is_within(dir, other),
    ensures
        match repo_root(dir, existing) {
            Some(root) => {
                &&& text::is_absolute(root)
                &&& is_within(dir, root)
                &&& path_set::has_path(existing, text::joined(root, git_marker()))
                &&& text::components(other).len() > text::components(root).len()
                    ==> !path_set::has_path(existing, text::joined(other, git_marker()))
            },
            None => !path_set::has_path(existing, text::joined(other, git_marker())),
        },
    decreases dir.len(),
{
    let dc = text::components(dir);
    assert(dc.subrange(0, dc.len() as int) == dc);
    assert(is_within(dir, dir));
    lemma_git_marker();
    text::joined_components(dir, git_marker());
    text::joined_components(other, git_marker());
    let oc = text::components(other);
    if !path_set::has_path(existing, text::joined(dir, git_marker())) {
        text::parent_properties(dir);
        text::parent_properties(other);
        if oc.len() == dc.len() {
            assert(oc == dc);
        }
        match text::parent_text(dir) {
            Some(parent) => {
                let pc = text::components(parent);
                if oc.len() < dc.len() {
                    parent_is_nearest(dir, other);
                    repo_root_is_nearest(parent, existing, other);
                } else {
                    assert(is_within(parent, parent)) by {
                        assert(pc.subrange(0, pc.len() as int) == pc);
                    }
                    repo_root_is_nearest(parent, existing, parent);
                }
                match repo_root(parent, existing) {
                    Some(root) => {
                        let rc = text::components(root);
                        assert(pc.subrange(0, rc.len() as int) == dc.subrange(0, rc.len() as int));
                    },
                    None => {},
                }
            },
            None => {},
        }
    }
}

/// Where the repository root is depends on nothing but which of the markers of
/// `dir` and of the directories above it exist.
pub proof fn markers_decide_repo_root(
    dir: Seq<u8>,
    existing: path_set::PathMap,
    also: path_set::PathMap,
)
    requires
        forall|i: int|
            0 <= i < repo_markers(dir).len() ==> path_set::has_path(
                existing,
                #[trigger] repo_markers(dir)[i],
            ) == path_set::has_path(also, repo_markers(dir)[i]),
    ensures
        repo_root(dir, existing) == repo_root(dir, also),
    decreases dir.len(),
{
    let all = repo_markers(dir);
    assert(all[0] == text::joined(dir, git_marker()));
    match text::parent_text(dir) {
        Some(parent) => {
            if parent.len() < dir.len() {
                let above = repo_markers(parent);
                assert forall|i: int| 0 <= i < above.len() implies path_set::has_path(
                    existing,
                    #[trigger] above[i],
                ) == path_set::has_path(also, above[i]) by {
                    assert(all[i + 1] == above[i]);
                }
                markers_decide_repo_root(parent, existing, also);
            }
        },
        None => {},
    }
}

/// The root of a repository: a directory that holds a repository marker.
#[derive(Debug)]
pub struct RepoPath {
    abs_dir_path: AbsDirPath,
}

impl View for RepoPath {
    type V = Seq<u8>;

    closed spec fn view(&self) -> Seq<u8> {
        self.abs_dir_path@
    }
}

impl RepoPath {
    /// The markers whose existence decides where the repository root is: that
    /// of the given directory and of each directory above it.
    pub fn markers(cwd_path: &AbsDirPath) -> (res: Vec<AbsPath>)
        ensures
            path_set::texts(res@) == repo_markers(cwd_path@),
    {
        let mut res: Vec<AbsPath> = Vec::new();
        let mut dir: AbsDirPath = cwd_path.clone();
        let ghost all = repo_markers(cwd_path@);
        loop
            invariant_except_break
                path_set::texts(res@) + repo_markers(dir@) == all,
            ensures
                path_set::texts(res@) == all,
            decreases dir@.len(),
        {
            let marker: AbsPath = AbsPath::new(&dir, &['.' as u8, 'g' as u8, 'i' as u8, 't' as u8]);
            assert(marker@ == text::joined(dir@, git_marker()));
            let ghost before = path_set::texts(res@);
            res.push(marker);
            assert(path_set::texts(res@) == before.push(marker@));
            let above: Option<AbsDirPath> = dir.parent();
            proof {
                text::parent_properties(dir@);
            }
            match above {
                Some(parent) => {
                    assert(before + (seq![marker@] + repo_markers(parent@)) == before.push(marker@)
                        + repo_markers(parent@));
                    dir = parent;
                },
                None => {
                    assert(before + seq![marker@] == before.push(marker@));
                    break;
                },
            }
        }
        res
    }

    /// Finds the repository root: the nearest directory, from the given one
    /// upwards, whose marker is among the paths that exist.
    pub fn find(cwd_path: &AbsDirPath, existing: &PathSet) -> (res: Result<RepoPath, PathError>)
        ensures
            match res {
                Ok(root) => repo_root(cwd_path@, existing@) == Some(root@),
                Err(err) => err == PathError::RepoRoot && repo_root(cwd_path@, existing@) is None,
            },
    {
        let mut dir: AbsDirPath = cwd_path.clone();
        loop
            invariant
                repo_root(dir@, existing@) == repo_root(cwd_path@, existing@),
            decreases dir@.len(),
        {
            let marker: AbsPath = AbsPath::new(&dir, &['.' as u8, 'g' as u8, 'i' as u8, 't' as u8]);
            assert(marker@ == text::joined(dir@, git_marker()));
            if existing.contains(&marker) {
                return Ok(RepoPath { abs_dir_path: dir });
            }
            let above: Option<AbsDirPath> = dir.parent();
            proof {
                text::parent_properties(dir@);
            }
            match above {
                Some(parent) => {
                    dir = parent;
                },
                None => {
                    return Err(PathError::RepoRoot);
                },
            }
        }
    }

    /// The directory of the repository root.
    pub fn abs_dir_path(&self) -> (res: &AbsDirPath)
        ensures
            res@ == self@,
    {
        &self.abs_dir_path
    }
}

impl Clone for RepoPath {
    fn clone(&self) -> (res: Self)
        ensures
            res@ == self@,
    {
        RepoPath { abs_dir_path: self.abs_dir_path.clone() }
    }
}

/// The paths of a project: the directory that is tracked, and the root of the
/// repository around it. Both were seen to exist when the project was found.
#[derive(Debug)]
pub struct ProjectPath {
    cwd_path: AbsDirPath,
    repo_path: RepoPath,
}

impl ProjectPath {
    #[verifier::type_invariant]
    spec fn is_nested(self) -> bool {
        is_within(self.cwd_path@, self.repo_path@)
    }

    /// The text of the tracked directory.
    pub closed spec fn cwd(self) -> Seq<u8> {
        self.cwd_path@
    }

    /// The text of the repository root.
    pub closed spec fn repo(self) -> Seq<u8> {
        self.repo_path@
    }

    /// The markers whose existence decides which project a directory belongs to:
    /// that of the directory and of each directory above it.
    pub fn markers(cwd: &[u8], current_dir: Option<&AbsPath>) -> (res: Result<
        Vec<AbsPath>,
        PathError,
    >)
        ensures
            match resolved(cwd@, optional_text(current_dir)) {
                Some(dir) => res matches Ok(markers) && path_set::texts(markers@) == repo_markers(
                    dir,
                ),
                None => res matches Err(err) && err == PathError::CurrentDir,
            },
    {
        match AbsPath::try_new(cwd, current_dir) {
            Ok(abs_path) => Ok(RepoPath::markers(&AbsDirPath { abs_path })),
            Err(err) => Err(err),
        }
    }

    /// Finds the project of a directory: the directory itself, and the nearest
    /// repository root at or above it. `is_dir` is whether a directory was seen at
    /// `cwd`; where none was, there is no project.
    pub fn find(
        cwd: &[u8],
        current_dir: Option<&AbsPath>,
        existing: &PathSet,
        is_dir: bool,
    ) -> (res: Result<ProjectPath, PathError>)
        ensures
            match resolved(cwd@, optional_text(current_dir)) {
                Some(dir) => match repo_root(dir, existing@) {
                    Some(root) => if is_dir {
                        res matches Ok(project) && project.cwd() == dir && project.repo() == root
                    } else {
                        res matches Err(err) && err == PathError::MissingDir
                    },
                    None => res matches Err(err) && err == PathError::RepoRoot,
                },
                None => res matches Err(err) && err == PathError::CurrentDir,
            },
    {
        let abs_path: AbsPath = match AbsPath::try_new(cwd, current_dir) {
            Ok(abs_path) => abs_path,
            Err(err) => {
                return Err(err);
            },
        };
        let cwd_path: AbsDirPath = AbsDirPath { abs_path };
        match RepoPath::find(&cwd_path, existing) {
            Ok(repo_path) => {
                if !is_dir {
                    return Err(PathError::MissingDir);
                }
                proof {
                    let dir = cwd_path@;
                    let parts = text::components(dir);
                    assert(parts.subrange(0, parts.len() as int) == parts);
                    repo_root_is_nearest(dir, existing@, dir);
                }
                Ok(ProjectPath { cwd_path, repo_path })
            },
            Err(err) => Err(err),
        }
    }

    /// The tracked directory.
    pub fn cwd_path(&self) -> (res: &AbsDirPath)
        ensures
            res@ == self.cwd(),
            is_within(self.cwd(), self.repo()),
            text::is_absolute(self.cwd()),
    {
        proof {
            use_type_invariant(self);
            use_type_invariant(&self.cwd_path.abs_path);
        }
        &self.cwd_path
    }

    /// The repository root.
    pub fn repo_path(&self) -> (res: &AbsDirPath)
        ensures
            res@ == self.repo(),
            is_within(self.cwd(), self.repo()),
            text::is_absolute(self.repo()),
    {
        proof {
            use_type_invariant(self);
            use_type_invariant(&self.repo_path.abs_dir_path.abs_path);
        }
        self.repo_path.abs_dir_path()
    }

    /// Whether a path is a file of the project: it lies within the tracked
    /// directory, holds no data of a version control system, and was seen to be
    /// a regular file.
    pub fn is_project_file(&self, path: &AbsPath, probe: &FileProbe) -> (res: bool)
        ensures
            res == is_file_of(self.cwd(), path@, probe.is_file),
    {
        if !self.cwd_path.is_or_contains(path) || path.is_scm_path() {
            return false;
        }
        probe.is_file
    }

    /// The directories between the tracked directory and the path, outermost
    /// first.
    pub fn dir_segments_to(&self, path: &AbsPath) -> (res: Vec<AbsDirPath>)
        ensures
            dir_texts(res@) == dir_segments(self.cwd(), path@),
    {
        proof {
            use_type_invariant(path);
            text::parent_properties(path@);
        }
        let ghost cwd = self.cwd();
        let ghost all = dir_segments(cwd, path@);
        let mut segments: Vec<AbsDirPath> = Vec::new();
        if !self.cwd_path.is_or_contains(path) {
            proof {
                if text::parent_text(path@) is Some {
                    let pc = text::components(path@);
                    let cc = text::components(cwd);
                    if cc.is_prefix_of(pc.drop_last()) {
                        assert(pc.subrange(0, cc.len() as int) == cc);
                    }
                }
            }
            return segments;
        }
        let mut current: Option<AbsDirPath> = path.parent();
        proof {
            assert(dir_texts(segments@) == Seq::<Seq<u8>>::empty());
            if current is Some {
                let parent = current->0@;
                if is_within(parent, cwd) {
                    assert(all == dir_segments(cwd, parent).push(parent));
                    assert(all =~= dir_segments(cwd, parent).push(parent) + dir_texts(segments@));
                } else {
                    assert(all == dir_texts(segments@));
                }
            }
        }
        while current.is_some()
            invariant
                cwd == self.cwd(),
                all == dir_segments(cwd, path@),
                all == (match current {
                    Some(dir) => if is_within(dir@, cwd) {
                        dir_segments(cwd, dir@).push(dir@) + dir_texts(segments@)
                    } else {
                        dir_texts(segments@)
                    },
                    None => dir_texts(segments@),
                }),
            decreases
                    (match current {
                        Some(dir) => dir@.len() + 1,
                        None => 0,
                    }),
        {
            let dir: AbsDirPath = match current {
                Some(dir) => dir,
                None => {
                    return segments;
                },
            };
            if !self.cwd_path.is_or_contains(&dir.abs_path) {
                return segments;
            }
            let ghost before = dir_texts(segments@);
            segments.insert(0, dir.clone());
            let above: Option<AbsDirPath> = dir.parent();
            proof {
                text::parent_properties(dir@);
                assert(dir_texts(segments@) == seq![dir@] + before);
                assert(dir_segments(cwd, dir@).push(dir@) + before == dir_segments(cwd, dir@)
                    + dir_texts(segments@));
            }
            if dir == self.cwd_path {
                proof {
                    if text::parent_text(dir@) is Some {
                        parent_is_nearest(dir@, dir@);
                    }
                    assert(dir_segments(cwd, dir@) == Seq::<Seq<u8>>::empty());
                    assert(Seq::<Seq<u8>>::empty() + dir_texts(segments@) == dir_texts(segments@));
                }
                return segments;
            }
            current = above;
            proof {
                if current is Some && is_within(current->0@, cwd) {
                } else {
                    assert(dir_segments(cwd, dir@) == Seq::<Seq<u8>>::empty());
                    assert(Seq::<Seq<u8>>::empty() + dir_texts(segments@) == dir_texts(segments@));
                }
            }
        }
        segments
    }

    /// The absolute path of a path that is taken from the tracked directory, if
    /// it lies within the tracked directory. Whether it does goes by its
    /// components: `..` is a component like any other and is not resolved.
    pub fn abs_path_within_cwd(&self, path: &[u8]) -> (res: Option<AbsPath>)
        ensures
            match res {
                Some(abs) => {
                    &&& abs@ == text::joined(self.cwd(), path@)
                    &&& is_within(abs@, self.cwd())
                },
                None => !is_within(text::joined(self.cwd(), path@), self.cwd()),
            },
    {
        let abs_path: AbsPath = AbsPath::new(&self.cwd_path, path);
        if abs_path.is_or_within(&self.cwd_path) {
            Some(abs_path)
        } else {
            None
        }
    }

    /// The absolute path of a path that is taken from the tracked directory, if
    /// it lies within the repository. Whether it does goes by its components: `..`
    /// is a component like any other and is not resolved.
    pub fn abs_path_within_repo(&self, path: &[u8]) -> (res: Option<AbsPath>)
        ensures
            match res {
                Some(abs) => {
                    &&& abs@ == text::joined(self.cwd(), path@)
                    &&& is_within(abs@, self.repo())
                },
                None => !is_within(text::joined(self.cwd(), path@), self.repo()),
            },
    {
        let abs_path: AbsPath = AbsPath::new(&self.cwd_path, path);
        if abs_path.is_or_within(self.repo_path.abs_dir_path()) {
            Some(abs_path)
        } else {
            None
        }
    }
}

impl Clone for ProjectPath {
    fn clone(&self) -> (res: Self)
        ensures
            res.cwd() == self.cwd(),
            res.repo() == self.repo(),
    {
        proof {
            use_type_invariant(self);
        }
        ProjectPath { cwd_path: self.cwd_path.clone(), repo_path: self.repo_path.clone() }
    }
}

} // verus!
