use hls2dash::cache::{keep_fetched, on_lookup, CachedResponse, Lookup};
use hls2dash::error::AppError;

#[test]
fn answers_are_stored_and_handed_on() {
    let response = CachedResponse { body: vec![1, 2, 3], content_type: "text/plain".to_string() };
    let (stored, answer) = keep_fetched(Ok(response));
    let stored = stored.unwrap();
    let answer = answer.unwrap();
    assert_eq!(stored.body, vec![1, 2, 3]);
    assert_eq!(stored.content_type, "text/plain");
    assert_eq!(answer.body, stored.body);
    assert_eq!(answer.content_type, stored.content_type);
}

#[test]
fn failures_are_not_stored() {
    let (stored, answer) = keep_fetched(Err(AppError::UpstreamFetch("timeout".to_string())));
    assert!(stored.is_none());
    assert_eq!(answer.unwrap_err().message(), "upstream fetch failed: timeout");
}

#[test]
fn a_cloned_response_is_the_same() {
    let response = CachedResponse { body: vec![9], content_type: "a/b".to_string() };
    let copy = response.clone();
    assert_eq!(copy.body, response.body);
    assert_eq!(copy.content_type, response.content_type);
}

#[test]
fn a_hit_is_answered_and_a_miss_is_fetched() {
    let response = CachedResponse { body: vec![4, 5], content_type: "a/b".to_string() };
    match on_lookup(Some(response)) {
        Lookup::Answer(answer) => assert_eq!((answer.body, answer.content_type.as_str()), (vec![4, 5], "a/b")),
        Lookup::Fetch => panic!("a hit"),
    }
    assert!(matches!(on_lookup(None), Lookup::Fetch));
}
