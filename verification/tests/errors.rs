use hls2dash::error::AppError;
use hls2dash::handlers::reply::error_reply;
use hls2dash::upstream::{content_length, is_success, status_error, text_content_type};

#[test]
fn messages_and_statuses() {
    let cases = vec![
        (AppError::UpstreamFetch("timeout".to_string()), "upstream fetch failed: timeout", 502),
        (AppError::ParseError("bad".to_string()), "HLS parse error: bad", 400),
        (AppError::InvalidUrl("empty host".to_string()), "invalid URL: empty host", 400),
        (AppError::UnsupportedFormat("x".to_string()), "unsupported format: x", 400),
        (
            AppError::UpstreamStatus { status: 404, body: "gone".to_string() },
            "upstream returned non-2xx status 404: gone",
            502,
        ),
    ];
    for (error, message, status) in cases {
        assert_eq!(error.message(), message);
        assert_eq!(error.status_code(), status);
        let reply = error_reply(&error);
        assert_eq!(reply.status, status);
        assert_eq!(reply.content_type, "text/plain; charset=utf-8");
        assert_eq!(reply.body, message);
    }
}

#[test]
fn success_statuses() {
    assert!(!is_success(199));
    assert!(is_success(200));
    assert!(is_success(299));
    assert!(!is_success(300));
    assert!(!is_success(404));
}

#[test]
fn failed_statuses() {
    let read = status_error(503, Some("busy".to_string()));
    assert_eq!(read.message(), "upstream returned non-2xx status 503: busy");
    let unread = status_error(500, None);
    assert_eq!(unread.message(), "upstream returned non-2xx status 500: <unreadable>");
}

#[test]
fn upstream_headers() {
    assert_eq!(text_content_type(Some("text/html")), "text/html");
    assert_eq!(text_content_type(None), "application/octet-stream");
    assert_eq!(content_length(Some("1024")), Some(1024));
    assert_eq!(content_length(Some("+7")), Some(7));
    assert_eq!(content_length(Some("18446744073709551615")), Some(u64::MAX));
    assert_eq!(content_length(Some("18446744073709551616")), None);
    assert_eq!(content_length(Some("-1")), None);
    assert_eq!(content_length(Some(" 1")), None);
    assert_eq!(content_length(Some("")), None);
    assert_eq!(content_length(Some("+")), None);
    assert_eq!(content_length(None), None);
}
