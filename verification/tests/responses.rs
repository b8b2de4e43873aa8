use headroom::handlers::responses::{accept_lists_event_stream, accepts_sse, failure_answer};
use http::{HeaderMap, HeaderValue};

#[test]
fn accepts_sse_explicit() {
    let mut h = HeaderMap::new();
    h.insert(
        http::header::ACCEPT,
        HeaderValue::from_static("text/event-stream"),
    );
    assert!(accepts_sse(&h));
}

#[test]
fn accepts_sse_case_insensitive() {
    let mut h = HeaderMap::new();
    h.insert(
        http::header::ACCEPT,
        HeaderValue::from_static("Text/Event-Stream"),
    );
    assert!(accepts_sse(&h));
}

#[test]
fn accepts_sse_among_others() {
    let mut h = HeaderMap::new();
    h.insert(
        http::header::ACCEPT,
        HeaderValue::from_static("application/json, text/event-stream;q=0.9"),
    );
    assert!(accepts_sse(&h));
}

#[test]
fn accepts_json_only_returns_false() {
    let mut h = HeaderMap::new();
    h.insert(
        http::header::ACCEPT,
        HeaderValue::from_static("application/json"),
    );
    assert!(!accepts_sse(&h));
}

#[test]
fn no_accept_header_returns_false() {
    let h = HeaderMap::new();
    assert!(!accepts_sse(&h));
}

#[test]
fn only_the_first_accept_header_counts() {
    let mut h = HeaderMap::new();
    h.append(http::header::ACCEPT, HeaderValue::from_static("text/html"));
    h.append(
        http::header::ACCEPT,
        HeaderValue::from_static("text/event-stream"),
    );
    assert!(!accepts_sse(&h));
}

#[test]
fn another_header_does_not_count() {
    let mut h = HeaderMap::new();
    h.insert(
        http::header::CONTENT_TYPE,
        HeaderValue::from_static("text/event-stream"),
    );
    assert!(!accepts_sse(&h));
}

#[test]
fn a_value_that_is_not_visible_ascii_does_not_count() {
    let mut h = HeaderMap::new();
    h.insert(
        http::header::ACCEPT,
        HeaderValue::from_bytes(b"text/event-stream, caf\xc3\xa9").unwrap(),
    );
    assert!(!accepts_sse(&h));
}

#[test]
fn tabs_are_visible() {
    let mut h = HeaderMap::new();
    h.insert(
        http::header::ACCEPT,
        HeaderValue::from_static("text/html,\ttext/event-stream\t; q=1"),
    );
    assert!(accepts_sse(&h));
}

#[test]
fn entries_are_split_and_trimmed() {
    assert!(accept_lists_event_stream("text/event-stream"));
    assert!(accept_lists_event_stream(" text/event-stream ;q=0.1"));
    assert!(accept_lists_event_stream("a,b , TEXT/EVENT-STREAM"));
    assert!(!accept_lists_event_stream(""));
    assert!(!accept_lists_event_stream("text/event-streams"));
    assert!(!accept_lists_event_stream("q;text/event-stream"));
    assert!(!accept_lists_event_stream("text/event-strea"));
    assert!(!accept_lists_event_stream("text /event-stream"));
}

#[test]
fn failures_are_answered_with_an_internal_error() {
    assert_eq!(failure_answer(), (500, "internal handler error"));
}

#[test]
fn the_case_of_letters_does_not_matter() {
    for accept in ["text/html, text/event-stream; q=A", "text/html", "TEXT/event-STREAM"] {
        assert_eq!(
            accept_lists_event_stream(accept),
            accept_lists_event_stream(&accept.to_ascii_uppercase())
        );
    }
}
