//! Helpers of the GhostText daemon: which GitHub repository a page belongs to.

use vstd::prelude::*;

use crate::text::{
    before_char, before_char_chars, chars_of, find_char, find_char_from, lemma_find_char_from,
    string_from_chars, string_push, string_push_str, strip_prefix_chars, strip_prefix_spec, sub_chars,
};

verus! {

broadcast use vstd::string::group_string_axioms;

/// "owner/repo" for a GitHub page URL.
pub open spec fn repo_from_url_spec(url: Seq<char>) -> Option<Seq<char>> {
    let rest = match strip_prefix_spec(url, "https://github.com/"@) {
        Some(r) => Some(r),
        None => strip_prefix_spec(url, "http://github.com/"@),
    };
    match rest {
        None => None,
        Some(u) => {
            let owner = before_char(u, '/');
            match find_char_from(u, '/', 0) {
                None => None,
                Some(i) => {
                    let repo = before_char(u.skip(i + 1), '/');
                    if owner.len() == 0 || repo.len() == 0 {
                        None
                    } else {
                        Some(owner + seq!['/'] + repo)
                    }
                },
            }
        },
    }
}

/// Extract owner/repo from a GitHub URL such as
/// `https://github.com/owner/repo/issues/123` or `https://github.com/owner/repo`.
pub fn parse_github_repo_from_url(url: &str) -> (r: Option<String>)
    ensures
        (match r {
            Some(s) => Some(s@),
            None => None,
        }) == repo_from_url_spec(url@),
{
    let u = chars_of(url);
    let https = chars_of("https://github.com/");
    let http = chars_of("http://github.com/");
    let rest = match strip_prefix_chars(&u, &https) {
        Some(r) => Some(r),
        None => strip_prefix_chars(&u, &http),
    };
    let Some(rest) = rest else {
        return None;
    };
    let owner = before_char_chars(&rest, '/');
    let Some(i) = find_char(&rest, '/') else {
        return None;
    };
    proof {
        lemma_find_char_from(rest@, '/', 0);
        assert(find_char_from(rest@, '/', 0) == Some(i as int));
    }
    let tail = sub_chars(&rest, i + 1, rest.len());
    assert(tail@ =~= rest@.skip(i + 1));
    let repo = before_char_chars(&tail, '/');
    if owner.len() == 0 || repo.len() == 0 {
        return None;
    }
    let mut s = string_from_chars(&owner);
    string_push(&mut s, '/');
    let repo_s = string_from_chars(&repo);
    string_push_str(&mut s, repo_s.as_str());
    Some(s)
}

} // verus!
