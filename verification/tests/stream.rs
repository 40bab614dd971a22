use bytes::Bytes;
use cachet::cache::{CacheConfig, ResponseFormat, SemanticCache};
use cachet::headers::Header;
use cachet::score::Score;
use cachet::stream::{
    has_sse_terminator, split_sse_events, sse_frame, Capture, Tee, MAX_CACHEABLE_RESPONSE_BYTES,
};

fn split(data: &'static [u8]) -> Vec<Bytes> {
    split_sse_events(&Bytes::from_static(data))
}

fn cache() -> SemanticCache<u8> {
    SemanticCache::new(CacheConfig { threshold: Score { bits: 0 }, ttl: 1000, max_entries: 10 })
}

fn capture() -> Capture {
    Capture::new("m", "user: hi", 200, vec![Header::new("content-type", "text/event-stream")])
}

#[test]
fn events_are_split_at_empty_lines() {
    assert_eq!(split(b""), Vec::<Bytes>::new());
    assert_eq!(split(b"\n"), vec![Bytes::from_static(b"\n")]);
    assert_eq!(split(b"data: a\n\n"), vec![Bytes::from_static(b"data: a\n\n")]);
    assert_eq!(
        split(b"a\n\nb\nc\n\ntail"),
        vec![
            Bytes::from_static(b"a\n\n"),
            Bytes::from_static(b"b\nc\n\n"),
            Bytes::from_static(b"tail"),
        ]
    );
    // Three newlines: the third opens the next event.
    assert_eq!(
        split(b"a\n\n\nb"),
        vec![Bytes::from_static(b"a\n\n"), Bytes::from_static(b"\nb")]
    );
    assert_eq!(
        split(b"\n\n\n\n"),
        vec![Bytes::from_static(b"\n\n"), Bytes::from_static(b"\n\n")]
    );
}

#[test]
fn split_events_concatenate_to_the_input() {
    for data in [&b"x"[..], b"a\n\nb", b"\n\n\n", b"data: a\r\n\r\ndata: b\n\n", b"\n\na\n\n\n\n\nb\n"] {
        assert_eq!(split_sse_events(&Bytes::copy_from_slice(data)).concat(), data);
    }
}

#[test]
fn terminator_is_found_anywhere() {
    assert!(has_sse_terminator(b"data: [DONE]\n\n"));
    assert!(has_sse_terminator(b"[DONE]"));
    assert!(!has_sse_terminator(b"[DONE"));
    assert!(!has_sse_terminator(b""));
    assert!(!has_sse_terminator(b"[done]"));
    assert!(!has_sse_terminator(b"[DON E]"));
}

#[test]
fn frames_of_the_live_feed() {
    assert_eq!(sse_frame("{\"a\":\"é\"}"), Bytes::from("data: {\"a\":\"é\"}\n\n"));
    assert_eq!(sse_frame(""), Bytes::from_static(b"data: \n\n"));
}

#[test]
fn captures_commit_all_their_bytes() {
    let mut cache = cache();
    let mut c = capture();
    assert_eq!(c.model(), "m");
    assert_eq!(c.canonical(), "user: hi");
    assert_eq!(c.size(), 0);
    assert!(c.push(&Bytes::from_static(b"data: a\n\n")));
    assert!(c.push(&Bytes::from_static(b"data: b\n\n")));
    assert_eq!(c.size(), 18);
    // No sentinel: it is recorded, not required.
    assert!(!c.commit(&mut cache, 0, 1, 2));
    let hit = cache.lookup_exact("m", "user: hi", ResponseFormat::Streaming, 3).expect("hit");
    assert_eq!(hit.response.body, Bytes::from_static(b"data: a\n\ndata: b\n\n"));
    assert_eq!(hit.response.status, 200);
    assert_eq!(hit.response.headers[0].value, b"text/event-stream".to_vec());
    assert!(cache.lookup_exact("m", "user: hi", ResponseFormat::NonStreaming, 3).is_none());
}

#[test]
fn an_empty_stream_is_committed_empty() {
    let mut cache = cache();
    let mut tee = Tee::new(Some(capture()));
    let (done, note) = tee.on_end();
    assert_eq!(note, Some("completed"));
    assert!(!done.unwrap().commit(&mut cache, 0, 1, 1));
    let hit = cache.lookup_exact("m", "user: hi", ResponseFormat::Streaming, 2).expect("hit");
    assert!(hit.response.body.is_empty());
}

#[test]
fn a_failed_stream_is_never_committed() {
    let mut tee = Tee::new(Some(capture()));
    assert!(!tee.on_chunk(&Bytes::from_static(b"data: a\n\n")));
    assert_eq!(tee.on_error(), Some("stream_error"));
    // Whatever comes after.
    assert!(!tee.on_chunk(&Bytes::from_static(b"data: b\n\n")));
    let (done, note) = tee.on_end();
    assert!(done.is_none());
    assert_eq!(note, None);
    assert_eq!(tee.on_drop(), None);
}

#[test]
fn a_dropped_stream_is_never_committed() {
    let mut tee = Tee::new(Some(capture()));
    assert!(!tee.on_chunk(&Bytes::from_static(b"data: a\n\n")));
    assert_eq!(tee.on_drop(), Some("client_disconnected"));
    assert!(tee.on_end().0.is_none());
}

#[test]
fn the_end_is_logged_once() {
    let mut tee = Tee::new(None);
    assert_eq!(tee.on_end().1, Some("completed"));
    assert_eq!(tee.on_end().1, None);
    assert_eq!(tee.on_error(), None);
    assert_eq!(tee.on_drop(), None);
}

#[test]
fn an_oversized_stream_is_given_up() {
    let chunk = Bytes::from(vec![b'x'; MAX_CACHEABLE_RESPONSE_BYTES / 2]);
    let mut tee = Tee::new(Some(capture()));
    assert!(!tee.on_chunk(&chunk));
    // Exactly at the limit it still fits.
    assert!(!tee.on_chunk(&chunk));
    assert!(tee.on_chunk(&Bytes::from_static(b"x")));
    // Given up once, it stays given up.
    assert!(!tee.on_chunk(&Bytes::from_static(b"x")));
    assert!(tee.on_end().0.is_none());
    let mut c = capture();
    assert!(c.push(&chunk));
    assert!(c.push(&chunk));
    assert!(!c.push(&Bytes::from_static(b"x")));
    assert_eq!(c.size(), MAX_CACHEABLE_RESPONSE_BYTES);
}
