//! Reading a repository reference out of a remote URL: the owner and
//! repository from the first two path segments, a branch after a `tree`
//! segment, and a sub-path from whatever follows. The URL itself is taken
//! apart by the `url` crate; everything decided over the segments is
//! verified here, as is the address the archive is fetched from.
use vstd::prelude::*;
use vstd::string::*;
use crate::strutil::push_char;
use crate::strutil::str_eq;
use crate::strutil::views_of;

verus! {

broadcast use vstd::seq_lib::group_seq_properties;

/// The `/`-separated path segments of a URL, or nothing when the text does
/// not parse as a URL or the URL cannot serve as a base. The result is a
/// function of the text alone.
pub uninterp spec fn url_segments_of(u: Seq<char>) -> Option<Seq<Seq<char>>>;

/// Relies on `url::Url::parse` and `url::Url::path_segments`: the path
/// segments of the parsed URL, percent-encoded as the crate keeps them;
/// `None` when parsing fails or the URL cannot be a base.
#[verifier::external_body]
fn url_path_segments(u: &str) -> (r: Option<Vec<String>>)
    ensures
        match r {
            Some(v) => url_segments_of(u@) == Some(views_of(v@)),
            None => url_segments_of(u@) is None,
        },
{
    match url::Url::parse(u) {
        Ok(parsed) => match parsed.path_segments() {
            Some(segments) => Some(segments.map(|s| s.to_string()).collect()),
            None => None,
        },
        Err(_) => None,
    }
}

/// One remote repository: owner, repository name, branch, and an optional
/// sub-path within it.
pub struct RepoInfo {
    pub owner: String,
    pub repo: String,
    pub branch: String,
    pub path: Option<String>,
}

/// The mathematical content of a [`RepoInfo`].
pub struct RepoInfoView {
    pub owner: Seq<char>,
    pub repo: Seq<char>,
    pub branch: Seq<char>,
    pub path: Option<Seq<char>>,
}

impl View for RepoInfo {
    type V = RepoInfoView;

    open spec fn view(&self) -> RepoInfoView {
        RepoInfoView {
            owner: self.owner@,
            repo: self.repo@,
            branch: self.branch@,
            path: match self.path {
                Some(ref p) => Some(p@),
                None => None,
            },
        }
    }
}

/// Why a URL yields no repository reference.
#[derive(Debug)]
pub enum RepoUrlError {
    /// The text does not parse as a URL, or the URL has no path segments.
    Invalid,
    /// The URL parses but names no owner and repository.
    NotGitHub,
}

impl RepoUrlError {
    /// The message reported for this failure.
    pub fn message(&self) -> (r: String)
        ensures
            self is Invalid ==> r@ == "Invalid URL"@,
            self is NotGitHub ==> r@ == "Invalid GitHub URL"@,
    {
        match self {
            RepoUrlError::Invalid => String::from_str("Invalid URL"),
            RepoUrlError::NotGitHub => String::from_str("Invalid GitHub URL"),
        }
    }
}

/// The segments joined with `/` between them.
pub open spec fn join_slash(parts: Seq<Seq<char>>) -> Seq<char>
    decreases parts.len(),
{
    if parts.len() == 0 {
        Seq::empty()
    } else if parts.len() == 1 {
        parts[0]
    } else {
        parts[0] + seq!['/'] + join_slash(parts.drop_first())
    }
}

proof fn lemma_join_slash_push(parts: Seq<Seq<char>>, x: Seq<char>)
    ensures
        parts.len() == 0 ==> join_slash(parts.push(x)) == x,
        parts.len() > 0 ==> join_slash(parts.push(x)) == join_slash(parts) + seq!['/'] + x,
    decreases parts.len(),
{
    if parts.len() == 0 {
        assert(join_slash(parts.push(x)) == parts.push(x)[0]);
    } else if parts.len() == 1 {
        assert(parts.push(x).drop_first() =~= seq![x]);
        assert(join_slash(seq![x]) == seq![x][0]);
        assert(join_slash(parts.push(x)) =~= parts[0] + seq!['/'] + x);
    } else {
        lemma_join_slash_push(parts.drop_first(), x);
        assert(parts.push(x).drop_first() =~= parts.drop_first().push(x));
        assert(join_slash(parts.push(x)) =~= join_slash(parts) + seq!['/'] + x);
    }
}

/// The repository reference read from the path segments: the first two
/// segments name owner and repository; a `tree` third segment names the
/// branch in the fourth and puts whatever follows, `/`-joined, into the
/// sub-path; otherwise the branch is `main`. Fewer than two segments name
/// nothing.
pub open spec fn repo_info_spec(segs: Seq<Seq<char>>) -> Option<RepoInfoView> {
    if segs.len() < 2 {
        None
    } else if segs.len() > 3 && segs[2] == "tree"@ {
        Some(
            RepoInfoView {
                owner: segs[0],
                repo: segs[1],
                branch: segs[3],
                path: if segs.len() > 4 {
                    Some(join_slash(segs.skip(4)))
                } else {
                    None
                },
            },
        )
    } else {
        Some(RepoInfoView { owner: segs[0], repo: segs[1], branch: "main"@, path: None })
    }
}

/// Builds the repository reference from the URL's path segments; fewer
/// than two segments are refused.
pub fn repo_info_from_segments(segs: &Vec<String>) -> (r: Result<RepoInfo, RepoUrlError>)
    ensures
        match r {
            Ok(info) => repo_info_spec(views_of(segs@)) == Some(info@),
            Err(e) => repo_info_spec(views_of(segs@)) is None && e is NotGitHub,
        },
{
    let len = segs.len();
    if len < 2 {
        return Err(RepoUrlError::NotGitHub);
    }
    let owner = segs[0].clone();
    let repo = segs[1].clone();
    if len > 3 && str_eq(segs[2].as_str(), "tree") {
        let branch = segs[3].clone();
        let path: Option<String> = if len > 4 {
            let mut joined = String::new();
            joined.append(segs[4].as_str());
            let ghost vs = views_of(segs@).skip(4);
            proof {
                assert(vs.take(1) =~= seq![views_of(segs@)[4]]);
                assert(joined@ =~= join_slash(vs.take(1)));
            }
            let mut k: usize = 5;
            while k < len
                invariant
                    5 <= k <= len,
                    len == segs@.len(),
                    vs == views_of(segs@).skip(4),
                    vs.len() == len - 4,
                    joined@ == join_slash(vs.take(k - 4)),
                decreases len - k,
            {
                push_char(&mut joined, '/');
                joined.append(segs[k].as_str());
                proof {
                    assert(vs.take(k - 4).push(views_of(segs@)[k as int]) =~= vs.take(k - 3));
                    lemma_join_slash_push(vs.take(k - 4), views_of(segs@)[k as int]);
                    assert(joined@ =~= join_slash(vs.take(k - 3)));
                }
                k = k + 1;
            }
            proof {
                assert(vs.take(vs.len() as int) =~= vs);
            }
            Some(joined)
        } else {
            None
        };
        Ok(RepoInfo { owner, repo, branch, path })
    } else {
        Ok(RepoInfo { owner, repo, branch: String::from_str("main"), path: None })
    }
}

/// Reads a repository reference from a remote URL: the `url` crate takes
/// the URL apart, and the segments decide the rest. A URL that does not
/// parse, or has no path, is refused as invalid; one with fewer than two
/// segments is refused as naming no repository.
pub fn parse_url(url: &str) -> (r: Result<RepoInfo, RepoUrlError>)
    ensures
        match r {
            Ok(info) => url_segments_of(url@) matches Some(segs) && repo_info_spec(segs) == Some(
                info@,
            ),
            Err(e) => match e {
                RepoUrlError::Invalid => url_segments_of(url@) is None,
                RepoUrlError::NotGitHub => url_segments_of(url@) matches Some(segs)
                    && repo_info_spec(segs) is None,
            },
        },
{
    match url_path_segments(url) {
        None => Err(RepoUrlError::Invalid),
        Some(segs) => repo_info_from_segments(&segs),
    }
}

/// The address of the archive for one repository reference.
pub open spec fn tarball_url_spec(info: RepoInfoView) -> Seq<char> {
    "https://api.github.com/repos/"@ + info.owner + "/"@ + info.repo + "/tarball/"@ + info.branch
}

/// Builds the archive address for a repository reference.
pub fn tarball_url(info: &RepoInfo) -> (r: String)
    ensures
        r@ == tarball_url_spec(info@),
{
    let mut out = String::from_str("https://api.github.com/repos/");
    out.append(info.owner.as_str());
    out.append("/");
    out.append(info.repo.as_str());
    out.append("/tarball/");
    out.append(info.branch.as_str());
    proof {
        assert(out@ =~= tarball_url_spec(info@));
    }
    out
}

} // verus!
