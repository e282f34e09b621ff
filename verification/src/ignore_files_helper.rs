//! Layered ignore filtering: a custom rule source is consulted first and
//! short-circuits, a VCS-style rule source second, and a path inside the
//! version-control metadata directory is ignored unconditionally, whatever
//! rule sources are present. Rule sources are built by the caller (absence
//! is never an error) and carried here as compiled `ignore` crate matchers.
use vstd::prelude::*;
use crate::strutil::has_component;
use crate::strutil::path_has_component;

verus! {

/// The compiled rule set of the `ignore` crate, carried opaquely.
#[verifier::external_type_specification]
#[verifier::external_body]
pub struct ExGitignore(ignore::gitignore::Gitignore);

/// Relies on `ignore::gitignore::Gitignore::matched` and
/// `ignore::Match::is_ignore`: whether the rule set marks the path (a file,
/// or a directory when `is_dir`) as ignored. Nothing further is assumed of
/// the verdict.
#[verifier::external_body]
fn gitignore_marks_ignored(gi: &ignore::gitignore::Gitignore, path: &str, is_dir: bool) -> (b:
    bool) {
    gi.matched(path, is_dir).is_ignore()
}

/// The literal name of the version-control metadata directory, which no
/// walk may enter and no rule source may un-ignore.
pub open spec fn vcs_meta_dir() -> Seq<char> {
    ".git"@
}

/// Whether the path lies inside the version-control metadata directory.
pub open spec fn in_vcs_meta_dir(path: Seq<char>) -> bool {
    has_component(path, vcs_meta_dir())
}

/// Decides whether the path has a `.git` component.
pub fn path_in_vcs_meta_dir(path: &str) -> (r: bool)
    ensures
        r == in_vcs_meta_dir(path@),
{
    proof {
        reveal_strlit(".git");
    }
    path_has_component(path, ".git")
}

/// The layered ignore rules: an optional custom source, consulted first,
/// and an optional VCS source. A source left out (by caller flag, or
/// because no rule file exists) permits everything.
pub struct IgnoreFilesHelper {
    pub custom_ignore: Option<ignore::gitignore::Gitignore>,
    pub gitignore: Option<ignore::gitignore::Gitignore>,
}

impl IgnoreFilesHelper {
    /// Assembles the policy from rule sources the caller loaded; `None`
    /// stands for a source that was disabled or whose file is absent. The
    /// policy carries exactly the sources it was given.
    pub fn new(
        custom_ignore: Option<ignore::gitignore::Gitignore>,
        gitignore: Option<ignore::gitignore::Gitignore>,
    ) -> (r: IgnoreFilesHelper)
        ensures
            r.custom_ignore == custom_ignore,
            r.gitignore == gitignore,
    {
        IgnoreFilesHelper { custom_ignore, gitignore }
    }

    /// Whether the path is ignored: always when it lies inside the VCS
    /// metadata directory; otherwise when the custom rules mark it (checked
    /// first, short-circuiting), or failing that, the VCS rules. With no
    /// rule verdict against it and no `.git` component, the path passes.
    pub fn is_ignored(&self, path: &str, is_dir: bool) -> (r: bool)
        ensures
            in_vcs_meta_dir(path@) ==> r,
            self.custom_ignore is None && self.gitignore is None ==> r == in_vcs_meta_dir(path@),
    {
        if path_in_vcs_meta_dir(path) {
            return true;
        }
        if let Some(ci) = &self.custom_ignore {
            if gitignore_marks_ignored(ci, path, is_dir) {
                return true;
            }
        }
        if let Some(gi) = &self.gitignore {
            if gitignore_marks_ignored(gi, path, is_dir) {
                return true;
            }
        }
        false
    }
}

} // verus!
