use writ::git::{parse_github_repo_string, parse_github_url};
use writ::writd::parse_github_repo_from_url;

#[test]
fn test_parse_github_ssh_url() {
    let ctx = parse_github_url("git@github.com:wilfred/writ.git").unwrap();
    assert_eq!(ctx.owner, "wilfred");
    assert_eq!(ctx.repo, "writ");

    let ctx = parse_github_url("git@github.com:wilfred/writ").unwrap();
    assert_eq!(ctx.owner, "wilfred");
    assert_eq!(ctx.repo, "writ");
}

#[test]
fn test_parse_github_https_url() {
    let ctx = parse_github_url("https://github.com/wilfred/writ.git").unwrap();
    assert_eq!(ctx.owner, "wilfred");
    assert_eq!(ctx.repo, "writ");

    let ctx = parse_github_url("https://github.com/wilfred/writ").unwrap();
    assert_eq!(ctx.owner, "wilfred");
    assert_eq!(ctx.repo, "writ");
}

#[test]
fn test_parse_non_github_url() {
    assert!(parse_github_url("git@gitlab.com:owner/repo.git").is_none());
    assert!(parse_github_url("https://gitlab.com/owner/repo").is_none());
}

#[test]
fn test_parse_github_repo_string() {
    let ctx = parse_github_repo_string("wilfred/writ").unwrap();
    assert_eq!(ctx.owner, "wilfred");
    assert_eq!(ctx.repo, "writ");

    assert!(parse_github_repo_string("invalid").is_none());
    assert!(parse_github_repo_string("/repo").is_none());
    assert!(parse_github_repo_string("owner/").is_none());
}

#[test]
fn test_parse_github_repo_from_url() {
    assert_eq!(
        parse_github_repo_from_url("https://github.com/owner/repo/issues/123"),
        Some("owner/repo".to_string())
    );
    assert_eq!(
        parse_github_repo_from_url("https://github.com/owner/repo/pull/456"),
        Some("owner/repo".to_string())
    );
    assert_eq!(
        parse_github_repo_from_url("https://github.com/owner/repo"),
        Some("owner/repo".to_string())
    );
    assert_eq!(parse_github_repo_from_url("https://gitlab.com/owner/repo"), None);
    assert_eq!(parse_github_repo_from_url("not a url"), None);
}

#[test]
fn repo_string_with_extra_slash_keeps_the_rest() {
    let ctx = parse_github_repo_string("a/b/c").unwrap();
    assert_eq!(ctx.owner, "a");
    assert_eq!(ctx.repo, "b/c");
}
