//! GitHub repository context from git remote URLs.

use vstd::prelude::*;

use crate::text::{
    before_char, before_char_chars, chars_of, contains_chars, contains_seq, split_once_chars,
    split_once_spec, string_from_chars, strip_prefix_chars, strip_prefix_spec, strip_suffix_chars,
    strip_suffix_spec,
};

verus! {

broadcast use vstd::string::group_string_axioms;

/// The GitHub repository a document belongs to.
#[derive(Debug, Clone, PartialEq, Eq)]
pub struct GitHubContext {
    pub owner: String,
    pub repo: String,
}

/// `rest` without a `.git` suffix, if it has one.
pub open spec fn without_git_suffix(rest: Seq<char>) -> Seq<char> {
    match strip_suffix_spec(rest, ".git"@) {
        Some(p) => p,
        None => rest,
    }
}

/// The (owner, repo) named by a GitHub remote URL, SSH or HTTPS.
pub open spec fn github_url_spec(url: Seq<char>) -> Option<(Seq<char>, Seq<char>)> {
    match strip_prefix_spec(url, "git@github.com:"@) {
        Some(rest) => split_once_spec(without_git_suffix(rest), '/'),
        None => if contains_seq(url, "github.com"@) {
            let scheme_less = match strip_prefix_spec(url, "https://"@) {
                Some(u) => Some(u),
                None => strip_prefix_spec(url, "http://"@),
            };
            match scheme_less {
                None => None,
                Some(u) => match strip_prefix_spec(u, "github.com/"@) {
                    None => None,
                    Some(path) => match split_once_spec(without_git_suffix(path), '/') {
                        None => None,
                        Some((owner, repo)) => Some((owner, before_char(repo, '/'))),
                    },
                },
            }
        } else {
            None
        },
    }
}

/// The (owner, repo) of an "owner/repo" string, both non-empty.
pub open spec fn repo_string_spec(s: Seq<char>) -> Option<(Seq<char>, Seq<char>)> {
    match split_once_spec(s, '/') {
        Some((owner, repo)) => if owner.len() == 0 || repo.len() == 0 {
            None
        } else {
            Some((owner, repo))
        },
        None => None,
    }
}

/// The context of an (owner, repo) result.
pub open spec fn context_view(r: Option<GitHubContext>) -> Option<(Seq<char>, Seq<char>)> {
    match r {
        Some(c) => Some((c.owner@, c.repo@)),
        None => None,
    }
}

fn without_git(v: Vec<char>) -> (r: Vec<char>)
    ensures
        r@ == without_git_suffix(v@),
{
    let suffix = chars_of(".git");
    match strip_suffix_chars(&v, &suffix) {
        Some(p) => p,
        None => v,
    }
}

/// Parse a GitHub URL (SSH or HTTPS) into GitHubContext.
pub fn parse_github_url(url: &str) -> (r: Option<GitHubContext>)
    ensures
        context_view(r) == github_url_spec(url@),
{
    let u = chars_of(url);
    // SSH format: git@github.com:owner/repo.git
    let ssh = chars_of("git@github.com:");
    if let Some(rest) = strip_prefix_chars(&u, &ssh) {
        let repo_path = without_git(rest);
        return match split_once_chars(&repo_path, '/') {
            Some((owner, repo)) => Some(
                GitHubContext { owner: string_from_chars(&owner), repo: string_from_chars(&repo) },
            ),
            None => None,
        };
    }
    // HTTPS format: https://github.com/owner/repo.git
    let host = chars_of("github.com");
    if contains_chars(&u, &host) {
        let https = chars_of("https://");
        let http = chars_of("http://");
        let scheme_less = match strip_prefix_chars(&u, &https) {
            Some(x) => Some(x),
            None => strip_prefix_chars(&u, &http),
        };
        let Some(scheme_less) = scheme_less else {
            return None;
        };
        let host_slash = chars_of("github.com/");
        let Some(path) = strip_prefix_chars(&scheme_less, &host_slash) else {
            return None;
        };
        let repo_path = without_git(path);
        let Some((owner, repo)) = split_once_chars(&repo_path, '/') else {
            return None;
        };
        // Handle URLs with trailing path components (e.g., .../owner/repo/pulls)
        let repo = before_char_chars(&repo, '/');
        return Some(GitHubContext { owner: string_from_chars(&owner), repo: string_from_chars(&repo) });
    }
    None
}

/// Parse a "owner/repo" string into GitHubContext.
pub fn parse_github_repo_string(s: &str) -> (r: Option<GitHubContext>)
    ensures
        context_view(r) == repo_string_spec(s@),
{
    let v = chars_of(s);
    let (owner, repo) = match split_once_chars(&v, '/') {
        Some(p) => p,
        None => return None,
    };
    if owner.len() == 0 || repo.len() == 0 {
        return None;
    }
    Some(GitHubContext { owner: string_from_chars(&owner), repo: string_from_chars(&repo) })
}

} // verus!
