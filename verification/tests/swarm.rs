use c0mpute::hash;
use c0mpute::swarm::{respond_to_request, FetchError, FetchResponse, FetchTracker, ProvidersStep, ResponseStep};

#[test]
fn fetch_flow_answers_once() {
    let mut t = FetchTracker::new();
    let h = hash::Hash::of(b"chunk");
    let (caller, displaced) = t.lookup_started(7);
    assert_eq!(caller, 0);
    assert!(displaced.is_none());
    match t.providers_found(7, &h.0, vec![vec![1], vec![2]]) {
        ProvidersStep::Request { waiter, hash, provider } => {
            assert_eq!(waiter, caller);
            assert!(hash == h);
            assert_eq!(provider, vec![1]);
        }
        other => panic!("unexpected {other:?}"),
    }
    // The lookup is no longer pending.
    assert!(matches!(t.providers_found(7, &h.0, vec![vec![1]]), ProvidersStep::Ignore));
    assert!(t.request_sent(42, caller).is_none());
    match t.response_received(42, FetchResponse::Found { bytes: b"data".to_vec() }) {
        ResponseStep::Answer { waiter: 0, result: Ok(bytes) } => assert_eq!(bytes, b"data"),
        other => panic!("unexpected {other:?}"),
    }
    assert!(matches!(t.response_received(42, FetchResponse::NotFound), ResponseStep::Ignore));
    assert!(t.request_failed(42).is_none());
    // Callers get fresh numbers.
    assert_eq!(t.lookup_started(8).0, 1);
}

#[test]
fn not_found_goes_to_the_next_provider() {
    let mut t = FetchTracker::new();
    let h = hash::Hash([3; 32]);
    let (c, _) = t.lookup_started(1);
    assert!(matches!(t.providers_found(1, &h.0, vec![vec![10], vec![11], vec![12]]), ProvidersStep::Request { .. }));
    t.request_sent(100, c);
    match t.response_received(100, FetchResponse::NotFound) {
        ResponseStep::Retry { waiter, hash, provider } => {
            assert_eq!(waiter, c);
            assert!(hash == h);
            assert_eq!(provider, vec![11]);
        }
        other => panic!("unexpected {other:?}"),
    }
    t.request_sent(101, c);
    match t.response_received(101, FetchResponse::NotFound) {
        ResponseStep::Retry { provider, .. } => assert_eq!(provider, vec![12]),
        other => panic!("unexpected {other:?}"),
    }
    t.request_sent(102, c);
    assert!(matches!(
        t.response_received(102, FetchResponse::NotFound),
        ResponseStep::Answer { waiter: 0, result: Err(FetchError::NotFound) }
    ));
}

#[test]
fn request_sent_without_due_request_changes_nothing() {
    let mut t = FetchTracker::new();
    assert!(t.request_sent(5, 9).is_none());
    assert!(matches!(t.response_received(5, FetchResponse::NotFound), ResponseStep::Ignore));
}

#[test]
fn reused_lookup_number_displaces_the_earlier_caller() {
    let mut t = FetchTracker::new();
    let (a, _) = t.lookup_started(3);
    let (b, displaced) = t.lookup_started(3);
    assert_eq!(displaced, Some(a));
    assert!(matches!(t.lookup_finished(3), Some((w, FetchError::LookupExhausted)) if w == b));
}

#[test]
fn bad_key_and_no_providers_fail_the_caller() {
    let mut t = FetchTracker::new();
    let (c1, _) = t.lookup_started(1);
    match t.providers_found(1, &[1, 2, 3], vec![vec![1]]) {
        ProvidersStep::Fail { waiter, error: FetchError::InvalidKey } => assert_eq!(waiter, c1),
        other => panic!("unexpected {other:?}"),
    }
    let (c2, _) = t.lookup_started(2);
    let h = hash::Hash([5; 32]);
    match t.providers_found(2, &h.0, vec![]) {
        ProvidersStep::Fail { waiter, error: FetchError::NoProviders(got) } => {
            assert_eq!(waiter, c2);
            assert!(got == h);
            assert_eq!(
                FetchError::NoProviders(got).message(),
                format!("no providers for {}", "05".repeat(32))
            );
        }
        other => panic!("unexpected {other:?}"),
    }
}

#[test]
fn lookup_end_and_failures() {
    let mut t = FetchTracker::new();
    let (c3, _) = t.lookup_started(3);
    let (c4, _) = t.lookup_started(4);
    assert!(matches!(t.lookup_finished(3), Some((w, FetchError::LookupExhausted)) if w == c3));
    assert!(t.lookup_finished(3).is_none());
    assert!(matches!(t.lookup_failed(4), Some((w, FetchError::LookupFailed)) if w == c4));
    assert!(t.lookup_failed(4).is_none());
    let (c5, _) = t.lookup_started(5);
    t.providers_found(5, &[0; 32], vec![vec![7]]);
    t.request_sent(9, c5);
    assert!(matches!(t.request_failed(9), Some((w, FetchError::RequestFailed)) if w == c5));
    assert_eq!(FetchError::NotFound.message(), "provider returned NotFound for chunk");
}

#[test]
fn serving_requests() {
    assert!(matches!(respond_to_request(Some(vec![1])), FetchResponse::Found { bytes } if bytes == vec![1]));
    assert!(matches!(respond_to_request(None), FetchResponse::NotFound));
}
