//! Where a downloaded repository is cached: paths under a base cache
//! directory, laid out by owner, repository and branch, with the optional
//! sub-path below. The base directory itself is the platform's cache
//! location, found by the caller; everything built on it is verified here.
use vstd::prelude::*;
use vstd::string::*;
use crate::github_handler::RepoInfo;
use crate::github_handler::RepoInfoView;
use crate::strutil::push_char;

verus! {

/// The cache layout rooted at one base directory.
pub struct TempManager {
    pub base_dir: String,
}

/// The cache path for one repository reference: base, owner, repository
/// and branch as successive components, and the sub-path below them when
/// there is one.
pub open spec fn repo_path_spec(base: Seq<char>, info: RepoInfoView) -> Seq<char> {
    let root = base + seq!['/'] + info.owner + seq!['/'] + info.repo + seq!['/'] + info.branch;
    match info.path {
        Some(p) => root + seq!['/'] + p,
        None => root,
    }
}

impl TempManager {
    /// Roots the cache at the given base directory.
    pub fn new(base_dir: String) -> (r: TempManager)
        ensures
            r.base_dir@ == base_dir@,
    {
        TempManager { base_dir }
    }

    /// The cache path for one repository reference.
    pub fn get_repo_path(&self, repo_info: &RepoInfo) -> (r: String)
        ensures
            r@ == repo_path_spec(self.base_dir@, repo_info@),
    {
        let mut out = String::new();
        out.append(self.base_dir.as_str());
        push_char(&mut out, '/');
        out.append(repo_info.owner.as_str());
        push_char(&mut out, '/');
        out.append(repo_info.repo.as_str());
        push_char(&mut out, '/');
        out.append(repo_info.branch.as_str());
        if let Some(p) = &repo_info.path {
            push_char(&mut out, '/');
            out.append(p.as_str());
        }
        proof {
            assert(out@ =~= repo_path_spec(self.base_dir@, repo_info@));
        }
        out
    }
}

} // verus!
