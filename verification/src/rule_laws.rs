//! When a path is tracked, by what the ignore rules say and what was seen of it.

use vstd::prelude::*;

use crate::path;
use crate::rules;
use crate::text;

verus! {

/// A text that displays as it is: valid UTF-8 in which the three bytes of the
/// replacement character do not follow each other.
pub open spec fn displays_as_is(text: Seq<u8>) -> bool {
    &&& vstd::utf8::valid_utf8(text)
    &&& !exists|i: int|
        0 <= i && i + 2 < text.len() && #[trigger] text[i] == 0xefu8 && text[i + 1] == 0xbfu8
            && text[i + 2] == 0xbdu8
}

/// The verdict that counts for a path: that of the rules for a text that displays
/// as it is, otherwise the one that was handed in.
pub open spec fn is_verdict(
    verdicts: Map<Seq<u8>, rules::RuleVerdict>,
    path: Seq<u8>,
    probe: rules::ProbeView,
    verdict: rules::RuleVerdict,
) -> bool {
    &&& displays_as_is(path) ==> verdict == verdicts[path]
    &&& !displays_as_is(path) ==> verdict == probe.verdict
}

/// The components of a directory are the first ones of a path.
pub open spec fn leads_to(dir: Seq<u8>, path: Seq<u8>) -> bool {
    exists|rest: Seq<Seq<u8>>| text::components(path) == text::components(dir) + rest
}

/// A verdict ignores a path: its rule was written for no directory, or for one that
/// leads to the path.
pub open spec fn ignores(verdict: rules::RuleVerdict, path: Seq<u8>) -> bool {
    match verdict {
        rules::RuleVerdict::Ignore(Some(dir)) => leads_to(dir, path),
        rules::RuleVerdict::Ignore(None) => true,
        rules::RuleVerdict::Unmatched => false,
        rules::RuleVerdict::Whitelist => false,
    }
}

proof fn lemma_leads_to(dir: Seq<u8>, path: Seq<u8>)
    ensures
        leads_to(dir, path) == path::is_within(path, dir),
{
    let d = text::components(dir);
    let p = text::components(path);
    if leads_to(dir, path) {
        let rest = choose|rest: Seq<Seq<u8>>| p == d + rest;
        assert(p.subrange(0, d.len() as int) == d);
    }
    if path::is_within(path, dir) {
        assert(p == d + p.skip(d.len() as int));
    }
}

/// A path lies within a directory exactly where the components of the directory are
/// the first ones of the path.
pub proof fn within_goes_by_first_components(path: Seq<u8>, dir: Seq<u8>)
    ensures
        path::is_within(path, dir) == leads_to(dir, path),
{
    lemma_leads_to(dir, path);
}

/// The rules are asked about exactly the texts that display as they are.
pub proof fn plain_texts_display_as_they_are(text: Seq<u8>)
    ensures
        rules::is_plain(text) == displays_as_is(text),
{
    if displays_as_is(text) {
        assert forall|i: int| 0 <= i < text.len() - 2 implies !(#[trigger] text[i] == 0xef && text[i
            + 1] == 0xbf && text[i + 2] == 0xbd) by {
            assert(i + 2 < text.len());
        }
    }
}

/// A path whose verdict ignores it is not tracked, whatever was seen of the file
/// and in either mode.
pub proof fn ignored_path_is_not_tracked(
    cwd: Seq<u8>,
    path: Seq<u8>,
    verdicts: Map<Seq<u8>, rules::RuleVerdict>,
    verdict: rules::RuleVerdict,
    probe: rules::ProbeView,
    only_source: bool,
)
    requires
        is_verdict(verdicts, path, probe, verdict),
        ignores(verdict, path),
    ensures
        !rules::is_tracked(cwd, path, verdicts, probe, only_source),
        !rules::is_tracked_by(cwd, path, verdict, probe, only_source),
        !rules::is_kept(path, verdict),
{
    plain_texts_display_as_they_are(path);
    if let rules::RuleVerdict::Ignore(Some(dir)) = verdict {
        lemma_leads_to(dir, path);
    }
}

/// A regular file in the tracked directory that belongs to no version control
/// system and that no rule ignores is tracked, where all files are wanted or it is
/// a source file.
pub proof fn unignored_file_is_tracked(
    cwd: Seq<u8>,
    path: Seq<u8>,
    verdicts: Map<Seq<u8>, rules::RuleVerdict>,
    verdict: rules::RuleVerdict,
    probe: rules::ProbeView,
    only_source: bool,
)
    requires
        is_verdict(verdicts, path, probe, verdict),
        !ignores(verdict, path),
        probe.is_file,
        leads_to(cwd, path),
        forall|i: int|
            0 <= i < text::components(path).len() ==> !path::is_scm_marker(
                #[trigger] text::components(path)[i],
            ),
        !only_source || probe.is_source,
    ensures
        rules::is_tracked(cwd, path, verdicts, probe, only_source),
        rules::is_tracked_by(cwd, path, verdict, probe, only_source),
        rules::is_kept(path, verdict),
{
    plain_texts_display_as_they_are(path);
    lemma_leads_to(cwd, path);
    if let rules::RuleVerdict::Ignore(Some(dir)) = verdict {
        lemma_leads_to(dir, path);
    }
}

/// What is tracked is a regular file in the tracked directory, belongs to no
/// version control system, and in source-only mode is a source file.
pub proof fn tracked_path_is_project_file(
    cwd: Seq<u8>,
    path: Seq<u8>,
    verdicts: Map<Seq<u8>, rules::RuleVerdict>,
    verdict: rules::RuleVerdict,
    probe: rules::ProbeView,
    only_source: bool,
)
    requires
        rules::is_tracked(cwd, path, verdicts, probe, only_source) || rules::is_tracked_by(
            cwd,
            path,
            verdict,
            probe,
            only_source,
        ),
    ensures
        probe.is_file,
        leads_to(cwd, path),
        forall|i: int|
            0 <= i < text::components(path).len() ==> !path::is_scm_marker(
                #[trigger] text::components(path)[i],
            ),
        only_source ==> probe.is_source,
{
    lemma_leads_to(cwd, path);
}

/// Where the file was not seen to be a regular file, lies outside the tracked
/// directory or belongs to a version control system, it is no file of the project,
/// and otherwise it is one.
pub proof fn project_files_are_exact(cwd: Seq<u8>, path: Seq<u8>, is_file: bool)
    ensures
        path::is_file_of(cwd, path, is_file) == (is_file && leads_to(cwd, path) && forall|i: int|
            0 <= i < text::components(path).len() ==> !path::is_scm_marker(
                #[trigger] text::components(path)[i],
            )),
{
    lemma_leads_to(cwd, path);
}

} // verus!
