use cluster_agent::authorizer::{extract_token, AuthDecision, Authorizer};

fn hash() -> Vec<u8> {
    // A stand-in 32-byte token hash.
    (0u8..32).collect()
}

fn namespaces(names: &[&str]) -> Vec<Vec<u8>> {
    names.iter().map(|n| n.as_bytes().to_vec()).collect()
}

#[test]
fn test_authorization_hit_and_miss() {
    // Same token hash, namespace "a", verb "list": the first call needs a
    // review; once its allow is stored, calls within the lifetime are served
    // from the cache; after the lifetime lapses a review is needed again.
    let ttl = 300_000i64;
    let mut cache = Authorizer::new(ttl, 10_000);
    let ns = namespaces(&["a"]);

    let first = cache.authorize(&hash(), &ns, b"list", 1_000);
    assert_eq!(first, AuthDecision::NeedsReview(b"a".to_vec()));

    cache.store(hash(), b"a".to_vec(), b"list".to_vec(), true, 1_000);

    let second = cache.authorize(&hash(), &ns, b"list", 2_000);
    assert_eq!(second, AuthDecision::Allowed);

    let after_ttl = cache.authorize(&hash(), &ns, b"list", 1_000 + ttl);
    assert_eq!(after_ttl, AuthDecision::NeedsReview(b"a".to_vec()));
}

#[test]
fn review_error_leaves_cache_unchanged() {
    // A transport error yields no decision: nothing is stored, so the next
    // call still needs a review.
    let mut cache = Authorizer::new(300_000, 10_000);
    let ns = namespaces(&["a"]);
    let first = cache.authorize(&hash(), &ns, b"list", 1_000);
    assert_eq!(first, AuthDecision::NeedsReview(b"a".to_vec()));
    // The review failed outside; no store happens.
    let second = cache.authorize(&hash(), &ns, b"list", 1_001);
    assert_eq!(second, AuthDecision::NeedsReview(b"a".to_vec()));
    cache.store(hash(), b"a".to_vec(), b"list".to_vec(), true, 1_001);
    let third = cache.authorize(&hash(), &ns, b"list", 1_002);
    assert_eq!(third, AuthDecision::Allowed);
}

#[test]
fn cached_deny_is_served() {
    let mut cache = Authorizer::new(300_000, 10_000);
    let ns = namespaces(&["a", "b"]);
    cache.store(hash(), b"a".to_vec(), b"watch".to_vec(), true, 0);
    cache.store(hash(), b"b".to_vec(), b"watch".to_vec(), false, 0);
    let decision = cache.authorize(&hash(), &ns, b"watch", 1);
    assert_eq!(decision, AuthDecision::Denied(b"b".to_vec()));
}

#[test]
fn empty_namespace_set_checks_the_unnamed_namespace() {
    let mut cache = Authorizer::new(300_000, 10_000);
    let decision = cache.authorize(&hash(), &Vec::new(), b"list", 0);
    assert_eq!(decision, AuthDecision::NeedsReview(Vec::new()));
    cache.store(hash(), Vec::new(), b"list".to_vec(), true, 0);
    let decision = cache.authorize(&hash(), &Vec::new(), b"list", 1);
    assert_eq!(decision, AuthDecision::Allowed);
}

#[test]
fn capacity_bound_evicts_oldest_entry() {
    let mut cache = Authorizer::new(300_000, 2);
    cache.store(hash(), b"a".to_vec(), b"list".to_vec(), true, 0);
    cache.store(hash(), b"b".to_vec(), b"list".to_vec(), true, 1);
    cache.store(hash(), b"c".to_vec(), b"list".to_vec(), true, 2);
    // "a" was stored earliest and had to leave; "c" is present.
    let a = cache.authorize(&hash(), &namespaces(&["a"]), b"list", 3);
    assert_eq!(a, AuthDecision::NeedsReview(b"a".to_vec()));
    let c = cache.authorize(&hash(), &namespaces(&["c"]), b"list", 3);
    assert_eq!(c, AuthDecision::Allowed);
}

#[test]
fn missing_authorization_metadata_has_no_token() {
    let meta = vec![(b"content-type".to_vec(), b"application/grpc".to_vec())];
    assert_eq!(extract_token(&meta), None);

    let meta = vec![
        (b"content-type".to_vec(), b"application/grpc".to_vec()),
        (b"authorization".to_vec(), b"Bearer SECRET-REDACTED".to_vec()),
    ];
    assert_eq!(extract_token(&meta), Some(b"Bearer SECRET-REDACTED".to_vec()));
}
