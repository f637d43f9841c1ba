//! The ignore rules of a project, and which files they leave to be tracked.

use bstr::{ByteSlice, ByteVec};
use ignore::gitignore::GitignoreBuilder;
use ignore::Match;
use ignore_files::IgnoreFilter;
use std::str::{from_utf8, Utf8Error};
use vstd::prelude::*;

use crate::path;
use crate::path::{AbsPath, ProjectPath};
use crate::text;

verus! {

/// An ignore rule.
///
/// For a rule of an ignore file within a project, `from` and `base` are the
/// directory of that file. A rule of an ignore file for all projects is written for
/// the root, while its pattern is matched from the root of the repository.
#[derive(Debug)]
pub struct Glob {
    /// The directory that the rule was written for, if it was written for one: it
    /// says nothing of paths outside.
    pub from: Option<Vec<u8>>,
    /// The directory that the pattern is matched from.
    pub base: Vec<u8>,
    /// The pattern as it stands in the ignore file.
    pub pattern: String,
}

/// The mathematical counterpart of `Glob`.
pub struct GlobView {
    pub from: Option<Seq<u8>>,
    pub base: Seq<u8>,
    pub pattern: Seq<char>,
}

/// The text of a directory that may be missing.
pub open spec fn optional_dir(dir: Option<Vec<u8>>) -> Option<Seq<u8>> {
    match dir {
        Some(dir) => Some(dir@),
        None => None,
    }
}

impl View for Glob {
    type V = GlobView;

    open spec fn view(&self) -> GlobView {
        GlobView { from: optional_dir(self.from), base: self.base@, pattern: self.pattern@ }
    }
}

/// What a set of ignore rules says of one path.
#[derive(Debug)]
pub enum RuleMatch {
    /// No rule matches.
    Unmatched,
    /// The deciding rule ignores the path. It was written for the directory, if it
    /// was written for one.
    Ignore(Option<Vec<u8>>),
    /// The deciding rule keeps the path.
    Whitelist,
}

/// The mathematical counterpart of `RuleMatch`.
pub enum RuleVerdict {
    Unmatched,
    Ignore(Option<Seq<u8>>),
    Whitelist,
}

impl View for RuleMatch {
    type V = RuleVerdict;

    open spec fn view(&self) -> RuleVerdict {
        match self {
            RuleMatch::Unmatched => RuleVerdict::Unmatched,
            RuleMatch::Ignore(from) => RuleVerdict::Ignore(optional_dir(*from)),
            RuleMatch::Whitelist => RuleVerdict::Whitelist,
        }
    }
}

/// What was seen of a path from outside.
#[derive(Debug)]
pub struct FileProbe {
    /// A regular file stands at the path.
    pub is_file: bool,
    /// The file is written in a known source language.
    pub is_source: bool,
    /// What the ignore rules say of the path. It is read only where the text of
    /// the path is not plain (see `is_plain`).
    pub rule_match: RuleMatch,
}

/// The mathematical counterpart of `FileProbe`.
pub struct ProbeView {
    pub is_file: bool,
    pub is_source: bool,
    pub verdict: RuleVerdict,
}

impl View for FileProbe {
    type V = ProbeView;

    open spec fn view(&self) -> ProbeView {
        ProbeView {
            is_file: self.is_file,
            is_source: self.is_source,
            verdict: self.rule_match@,
        }
    }
}

/// A path with what was seen of it from outside.
#[derive(Debug)]
pub struct ProbedPath {
    pub path: Vec<u8>,
    pub probe: FileProbe,
}

/// The mathematical counterpart of `ProbedPath`.
pub struct ProbedView {
    pub path: Seq<u8>,
    pub probe: ProbeView,
}

impl View for ProbedPath {
    type V = ProbedView;

    open spec fn view(&self) -> ProbedView {
        ProbedView { path: self.path@, probe: self.probe@ }
    }
}

/// The mathematical counterpart of a list of probed paths.
pub open spec fn probed_views(paths: Seq<ProbedPath>) -> Seq<ProbedView> {
    paths.map_values(|path: ProbedPath| path@)
}

/// Whether a text is its own display: it is valid UTF-8 and does not hold the
/// replacement character.
pub open spec fn is_plain(text: Seq<u8>) -> bool {
    &&& vstd::utf8::valid_utf8(text)
    &&& forall|i: int|
        0 <= i < text.len() - 2 ==> !(#[trigger] text[i] == 0xef && text[i + 1] == 0xbf && text[i
            + 2] == 0xbd)
}

/// What the ignore rules say of a path: their own verdict, or, where the text
/// of the path is not plain, the one that came with the probe.
pub open spec fn verdict_on(
    rules: Map<Seq<u8>, RuleVerdict>,
    path: Seq<u8>,
    probe: ProbeView,
) -> RuleVerdict {
    if is_plain(path) {
        rules[path]
    } else {
        probe.verdict
    }
}

/// Whether a verdict leaves a path to be tracked: no rule matches, the deciding
/// rule keeps the path, or the deciding rule does not cover it.
pub open spec fn is_kept(path: Seq<u8>, verdict: RuleVerdict) -> bool {
    match verdict {
        RuleVerdict::Unmatched => true,
        RuleVerdict::Whitelist => true,
        RuleVerdict::Ignore(from) => !path::is_covered(path, from),
    }
}

/// Whether a path is tracked: it is a file of the project in `cwd`, it is a
/// source file where only those are wanted, and the verdict keeps it.
pub open spec fn is_tracked_by(
    cwd: Seq<u8>,
    path: Seq<u8>,
    verdict: RuleVerdict,
    probe: ProbeView,
    only_source: bool,
) -> bool {
    &&& path::is_file_of(cwd, path, probe.is_file)
    &&& only_source ==> probe.is_source
    &&& is_kept(path, verdict)
}

/// Whether a path is tracked under the given rules.
pub open spec fn is_tracked(
    cwd: Seq<u8>,
    path: Seq<u8>,
    rules: Map<Seq<u8>, RuleVerdict>,
    probe: ProbeView,
    only_source: bool,
) -> bool {
    is_tracked_by(cwd, path, verdict_on(rules, path, probe), probe, only_source)
}

/// `std::str::Utf8Error`, carried as an opaque value.
#[verifier::external_type_specification]
#[verifier::external_body]
pub struct ExUtf8Error(Utf8Error);

/// `std::str::from_utf8` succeeds on exactly the byte strings that are valid
/// UTF-8.
pub assume_specification[ std::str::from_utf8 ](v: &[u8]) -> (res: Result<&str, Utf8Error>)
    ensures
        res is Ok <==> vstd::utf8::valid_utf8(v@),
;

/// `ignore_files::IgnoreFilter`, a compiled set of ignore rules, carried as an
/// opaque value.
#[verifier::external_type_specification]
#[verifier::external_body]
pub struct ExIgnoreFilter(IgnoreFilter);

/// What a compiled set of ignore rules holds: for the text of each path, the
/// verdict on a file of that path.
pub uninterp spec fn rule_verdicts(filter: IgnoreFilter) -> Map<Seq<u8>, RuleVerdict>;

/// Calls `ignore_files::IgnoreFilter::match_path` for a path that is not a
/// directory. Its result depends on the rules and on the text of the path
/// alone; of the deciding rule, `ignore::gitignore::Glob::from` gives the
/// directory.
///
/// The rules are looked up by how the directories above the path display. Where
/// two directories display alike the call can reach the rules of the wrong one
/// and panic, so it is made for plain texts only.
#[verifier::external_body]
fn match_path(filter: &IgnoreFilter, path: &[u8]) -> (verdict: RuleMatch)
    requires
        is_plain(path@),
    ensures
        verdict@ == rule_verdicts(*filter)[path@],
{
    match filter.match_path(&path.to_path_lossy(), false) {
        Match::None => RuleMatch::Unmatched,
        Match::Ignore(glob) => RuleMatch::Ignore(
            glob.from().map(|dir| Vec::from_path_lossy(dir).into_owned()),
        ),
        Match::Whitelist(_) => RuleMatch::Whitelist,
    }
}

/// Whether a pattern matches a file or one of the directories above it, the path
/// of the file taken from the directory that the pattern is matched from. A line
/// that is no pattern matches nothing.
pub uninterp spec fn glob_matches(pattern: Seq<char>, path: Seq<u8>) -> bool;

/// Compiles one line of an ignore file with
/// `ignore::gitignore::GitignoreBuilder` and matches a file against it with
/// `ignore::gitignore::Gitignore::matched_path_or_any_parents`. Its result
/// depends on the line and on the text of the path alone: it is whether the
/// pattern of the line matches, be it to ignore or to keep, and `false` where the
/// line does not compile.
///
/// The call panics on a path that begins at the root once a leading `./` is
/// stripped, so it is made for texts that begin at neither.
#[verifier::external_body]
pub(crate) fn match_glob(pattern: &str, path: &[u8]) -> (res: bool)
    requires
        !text::is_absolute(path@),
        !text::is_dotted(path@),
    ensures
        res == glob_matches(pattern@, path@),
{
    let mut builder = GitignoreBuilder::new("");
    match builder.add_line(None, pattern) {
        Err(_) => false,
        Ok(lines) => match lines.build() {
            Err(_) => false,
            Ok(rules) => match rules.matched_path_or_any_parents(path.to_path_lossy(), false) {
                Match::None => false,
                Match::Ignore(_) => true,
                Match::Whitelist(_) => true,
            },
        },
    }
}

/// Whether a pattern that is matched from the directory `base` matches a file
/// outside that directory. A line that is no pattern matches nothing.
pub uninterp spec fn glob_matches_outside(
    base: Seq<u8>,
    pattern: Seq<char>,
    path: Seq<u8>,
) -> bool;

/// Compiles one line of an ignore file for the given directory with
/// `ignore::gitignore::GitignoreBuilder` and matches a file against it with
/// `ignore::gitignore::Gitignore::matched`, which asks about the path itself and
/// not about the directories above it. Its result depends on the directory, the
/// line and the text of the path alone: it is whether the pattern of the line
/// matches, be it to ignore or to keep, and `false` where the line does not
/// compile.
#[verifier::external_body]
pub(crate) fn match_glob_outside(base: &[u8], pattern: &str, path: &[u8]) -> (res: bool)
    ensures
        res == glob_matches_outside(base@, pattern@, path@),
{
    let mut builder = GitignoreBuilder::new(base.to_path_lossy());
    match builder.add_line(None, pattern) {
        Err(_) => false,
        Ok(lines) => match lines.build() {
            Err(_) => false,
            Ok(rules) => match rules.matched(path.to_path_lossy(), false) {
                Match::None => false,
                Match::Ignore(_) => true,
                Match::Whitelist(_) => true,
            },
        },
    }
}

/// Whether a text is plain.
pub fn is_plain_text(text: &[u8]) -> (res: bool)
    ensures
        res == is_plain(text@),
{
    let mut i: usize = 0;
    while i < text.len()
        invariant
            i <= text.len(),
            forall|j: int|
                0 <= j < i && j < text@.len() - 2 ==> !(#[trigger] text@[j] == 0xef && text@[j + 1]
                    == 0xbf && text@[j + 2] == 0xbd),
        decreases text.len() - i,
    {
        if text.len() - i > 2 && text[i] == 0xef && text[i + 1] == 0xbf && text[i + 2] == 0xbd {
            return false;
        }
        i = i + 1;
    }
    from_utf8(text).is_ok()
}

/// Whether a verdict leaves a path to be tracked. That the pattern of a deciding
/// rule matches is part of the verdict, so only its directory is asked for.
pub fn keeps(path: &AbsPath, verdict: &RuleMatch) -> (res: bool)
    ensures
        res == is_kept(path@, verdict@),
{
    match verdict {
        RuleMatch::Unmatched => true,
        RuleMatch::Whitelist => true,
        RuleMatch::Ignore(from) => !path.is_covered_by(from),
    }
}

/// Whether a path is tracked, by the verdict of the ignore rules and by what
/// was seen of it.
pub fn is_tracked_with(
    project_path: &ProjectPath,
    path: &AbsPath,
    verdict: &RuleMatch,
    probe: &FileProbe,
    only_source: bool,
) -> (res: bool)
    ensures
        res == is_tracked_by(project_path.cwd(), path@, verdict@, probe@, only_source),
{
    if !project_path.is_project_file(path, probe) {
        return false;
    }
    if only_source && !path.is_source_file(probe) {
        return false;
    }
    keeps(path, verdict)
}

/// Whether a path is tracked under the given rules, by what was seen of it.
pub fn is_tracked_file(
    project_path: &ProjectPath,
    path: &AbsPath,
    filter: &IgnoreFilter,
    probe: &FileProbe,
    only_source: bool,
) -> (res: bool)
    ensures
        res == is_tracked(project_path.cwd(), path@, rule_verdicts(*filter), probe@, only_source),
{
    if !project_path.is_project_file(path, probe) {
        return false;
    }
    if is_plain_text(path.path()) {
        let verdict: RuleMatch = match_path(filter, path.path());
        is_tracked_with(project_path, path, &verdict, probe, only_source)
    } else {
        is_tracked_with(project_path, path, &probe.rule_match, probe, only_source)
    }
}

} // verus!
