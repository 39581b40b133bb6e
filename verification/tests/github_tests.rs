use writ::github::{GitHubValidationCache, ValidationState, ValidationTable};
use writ::inline::GitHubRef;

fn issue() -> GitHubRef {
    GitHubRef::Issue { owner: "rust-lang".to_string(), repo: "rust".to_string(), number: 123 }
}

#[test]
fn test_cache_new_is_empty() {
    let cache = GitHubValidationCache::new();
    let ref_ = issue();
    assert!(cache.get(&ref_).is_none());
    assert!(!cache.is_valid(&ref_));
}

#[test]
fn test_cache_mark_pending() {
    let cache = GitHubValidationCache::new();
    let ref_ = issue();
    cache.mark_pending(ref_.clone());
    assert_eq!(cache.get(&ref_), Some(ValidationState::Pending));
    assert!(!cache.is_valid(&ref_));
}

#[test]
fn test_cache_set_result_valid() {
    let cache = GitHubValidationCache::new();
    let ref_ = issue();
    cache.set_result(ref_.clone(), true);
    assert_eq!(cache.get(&ref_), Some(ValidationState::Valid));
    assert!(cache.is_valid(&ref_));
}

#[test]
fn test_cache_set_result_invalid() {
    let cache = GitHubValidationCache::new();
    let ref_ = issue();
    cache.set_result(ref_.clone(), false);
    assert_eq!(cache.get(&ref_), Some(ValidationState::Invalid));
    assert!(!cache.is_valid(&ref_));
}

#[test]
fn test_cache_clear() {
    let cache = GitHubValidationCache::new();
    let ref_ = issue();
    cache.set_result(ref_.clone(), true);
    assert!(cache.is_valid(&ref_));
    cache.clear();
    assert!(cache.get(&ref_).is_none());
    assert!(!cache.is_valid(&ref_));
}

#[test]
fn test_cache_clone_shares_state() {
    let cache1 = GitHubValidationCache::new();
    let cache2 = cache1.clone();

    let ref_ = GitHubRef::User { username: "torvalds".to_string() };

    cache1.set_result(ref_.clone(), true);

    assert!(cache1.is_valid(&ref_));
    assert!(cache2.is_valid(&ref_));
}

#[test]
fn table_keeps_one_state_per_ref() {
    let mut t = ValidationTable::new();
    let a = issue();
    let b = GitHubRef::Team { org: "o".to_string(), team: "t".to_string() };
    t.insert(a.clone(), ValidationState::Pending);
    t.insert(b.clone(), ValidationState::Invalid);
    t.insert(a.clone(), ValidationState::Valid);
    assert_eq!(t.get(&a), Some(ValidationState::Valid));
    assert_eq!(t.get(&b), Some(ValidationState::Invalid));
    let other = GitHubRef::Issue { owner: "rust-lang".to_string(), repo: "rust".to_string(), number: 124 };
    assert_eq!(t.get(&other), None);
    t.clear();
    assert_eq!(t.get(&a), None);
}

#[test]
fn refs_compare_by_their_fields() {
    let a = GitHubRef::Commit { owner: "o".into(), repo: "r".into(), sha: "abc".into() };
    let b = GitHubRef::Commit { owner: "o".into(), repo: "r".into(), sha: "abd".into() };
    assert!(a.same_as(&a.duplicate()));
    assert!(!a.same_as(&b));
    assert!(!a.same_as(&GitHubRef::User { username: "o".into() }));
}
