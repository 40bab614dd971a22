use bytes::Bytes;
use cachet::cache::{
    CacheConfig, CacheHit, CachedResponse, HitLayer, ResponseFormat, SemanticCache,
};
use cachet::chat::{analyze_request, CachePlan};
use cachet::dashboard::Route;
use cachet::headers::Header;
use cachet::metrics::Outcome;
use cachet::pricing::{Price, Pricing};
use cachet::proxy::{
    add_hit_diagnostics, build_cached_response, build_replay_response, build_streamed_replay,
    decide, finish_miss, intake, is_header_safe, open_stream, pass_through, relay, serve_hit,
    set_cache_header, CacheTag, Decision, Intake, Relay, Reply, ReplyBody, MAX_REQUEST_BODY_BYTES,
};
use cachet::score::Score;
use cachet::stream::MAX_CACHEABLE_RESPONSE_BYTES;

const SECOND: u128 = 1_000_000_000;

fn pairs(headers: &[Header]) -> Vec<(String, String)> {
    headers
        .iter()
        .map(|h| (h.name.clone(), String::from_utf8(h.value.clone()).unwrap()))
        .collect()
}

fn values(headers: &[Header], name: &str) -> Vec<String> {
    pairs(headers).into_iter().filter(|(n, _)| n == name).map(|(_, v)| v).collect()
}

fn whole(reply: &Reply) -> Bytes {
    match &reply.body {
        ReplyBody::Whole(b) => b.clone(),
        ReplyBody::Events(_) => panic!("a buffered body is expected"),
    }
}

fn events(reply: &Reply) -> Vec<Bytes> {
    match &reply.body {
        ReplyBody::Events(list) => list.clone(),
        ReplyBody::Whole(_) => panic!("an event stream is expected"),
    }
}

fn hit(layer: HitLayer, body: &str, format: ResponseFormat) -> CacheHit {
    CacheHit {
        layer,
        similarity: Score { bits: 0.87_f32.to_bits() },
        matched_prompt: "user: hi".to_string(),
        response: CachedResponse {
            status: 200,
            headers: vec![
                Header::new("content-type", "application/json"),
                Header::new("x-cachet", "miss"),
            ],
            body: Bytes::from(body.to_owned()),
            format,
        },
    }
}

fn cost(input: u64, output: u64, p: Price, q: Price) -> u64 {
    let dollars = input as f64 / 1e6 * f64::from_bits(p.bits)
        + output as f64 / 1e6 * f64::from_bits(q.bits);
    (dollars * 1e6).round() as u64
}

fn cache() -> SemanticCache<Vec<f32>> {
    SemanticCache::new(CacheConfig {
        threshold: Score { bits: 0.82_f32.to_bits() },
        ttl: 3600 * SECOND,
        max_entries: 100,
    })
}

fn upstream_headers() -> Vec<Header> {
    vec![
        Header::new("content-type", "application/json"),
        Header::new("content-length", "12"),
        Header::new("connection", "keep-alive"),
        Header::new("set-cookie", "session=secret; HttpOnly"),
        Header::new("x-cachet", "forged"),
    ]
}

const REQUEST: &[u8] = br#"{"model":"gpt-4o","messages":[{"role":"user","content":"What is the capital of France?"}]}"#;
const STREAM_REQUEST: &[u8] = br#"{"model":"gpt-4o","stream":true,"messages":[{"role":"user","content":"What is the capital of France?"}]}"#;

#[test]
fn reserved_paths_are_never_forwarded() {
    let at = |method: &str, path: &str| match intake("http://up", method, path, Some(path), &Vec::new()) {
        Intake::Dashboard(route) => Some(route),
        Intake::Forward(_) => None,
    };
    assert_eq!(at("GET", "/__cachet"), Some(Route::Page));
    assert_eq!(at("GET", "/__cachet/"), Some(Route::Page));
    assert_eq!(at("GET", "/__cachet/events"), Some(Route::Events));
    assert_eq!(at("POST", "/__cachet/stats"), Some(Route::MethodNotAllowed));
    assert_eq!(at("GET", "/__cachet/nope"), Some(Route::NotFound));
    assert_eq!(at("GET", "/__cachets"), None);
    assert_eq!(at("GET", "/v1/__cachet"), None);
}

#[test]
fn forwarded_requests_keep_path_query_and_credentials() {
    let headers = vec![
        Header::new("authorization", "Bearer SECRET-REDACTED"),
        Header::new("host", "localhost:8080"),
        Header::new("content-length", "9"),
        Header::new("connection", "close"),
        Header::new("accept", "*/*"),
    ];
    match intake("https://api.openai.com", "POST", "/v1/x", Some("/v1/x?key=1"), &headers) {
        Intake::Forward(call) => {
            assert_eq!(call.url, "https://api.openai.com/v1/x?key=1");
            assert_eq!(
                pairs(&call.headers),
                vec![
                    ("authorization".to_string(), "Bearer SECRET-REDACTED".to_string()),
                    ("accept".to_string(), "*/*".to_string()),
                ]
            );
        }
        Intake::Dashboard(_) => panic!("must be forwarded"),
    }
    match intake("https://api.openai.com", "GET", "*", None, &Vec::new()) {
        Intake::Forward(call) => assert_eq!(call.url, "https://api.openai.com/"),
        Intake::Dashboard(_) => panic!("must be forwarded"),
    }
}

#[test]
fn cache_header_is_set_once() {
    for (tag, text) in [(CacheTag::Hit, "hit"), (CacheTag::Miss, "miss"), (CacheTag::Bypass, "bypass")] {
        let mut headers = upstream_headers();
        set_cache_header(&mut headers, tag);
        assert_eq!(values(&headers, "x-cachet"), vec![text.to_string()]);
        assert_eq!(headers.len(), 5);
        assert_eq!(tag.as_str(), text);
    }
}

#[test]
fn diagnostics_leave_out_a_score_that_is_no_header() {
    let mut headers = Vec::new();
    add_hit_diagnostics(&mut headers, "0.8700", "semantic");
    assert_eq!(values(&headers, "x-cachet-score"), vec!["0.8700".to_string()]);
    assert_eq!(values(&headers, "x-cachet-layer"), vec!["semantic".to_string()]);
    let mut headers = Vec::new();
    add_hit_diagnostics(&mut headers, "bad\nvalue", "exact");
    assert!(values(&headers, "x-cachet-score").is_empty());
    assert_eq!(values(&headers, "x-cachet-layer"), vec!["exact".to_string()]);
    assert!(is_header_safe("a\tb"));
    assert!(!is_header_safe("a\u{7f}b"));
    assert!(is_header_safe(""));
}

#[test]
fn header_safety_agrees_with_the_header_type() {
    for text in ["0.8700", "a\tb", "", "é", "NaN", "a\nb", "\u{7f}", "\u{0}", "\u{1f}", " x "] {
        assert_eq!(
            is_header_safe(text),
            axum::http::HeaderValue::from_str(text).is_ok(),
            "{text:?}"
        );
    }
}

#[test]
fn buffered_hits_are_replayed_whole() {
    let reply = build_cached_response(hit(HitLayer::Exact, "{}", ResponseFormat::NonStreaming), "1.0000");
    assert_eq!(reply.status, 200);
    assert_eq!(whole(&reply), Bytes::from_static(b"{}"));
    assert_eq!(values(&reply.headers, "x-cachet"), vec!["hit".to_string()]);
    assert_eq!(values(&reply.headers, "x-cachet-score"), vec!["1.0000".to_string()]);
    assert_eq!(values(&reply.headers, "x-cachet-layer"), vec!["exact".to_string()]);
    assert_eq!(values(&reply.headers, "content-type"), vec!["application/json".to_string()]);
}

#[test]
fn streamed_hits_are_replayed_event_by_event() {
    let body = "data: a\n\ndata: b\n\ndata: [DONE]\n\n";
    let reply = build_streamed_replay(hit(HitLayer::Semantic, body, ResponseFormat::Streaming), "0.8700");
    assert_eq!(
        events(&reply),
        vec![
            Bytes::from_static(b"data: a\n\n"),
            Bytes::from_static(b"data: b\n\n"),
            Bytes::from_static(b"data: [DONE]\n\n"),
        ]
    );
    assert_eq!(values(&reply.headers, "x-cachet-layer"), vec!["semantic".to_string()]);
}

#[test]
fn replayed_responses_keep_status_and_headers() {
    let reply = build_replay_response(
        404,
        &vec![Header::new("a", "1"), Header::new("a", "2")],
        Bytes::from_static(b"x"),
        CacheTag::Miss,
    );
    assert_eq!(reply.status, 404);
    assert_eq!(
        pairs(&reply.headers),
        vec![
            ("a".to_string(), "1".to_string()),
            ("a".to_string(), "2".to_string()),
            ("x-cachet".to_string(), "miss".to_string()),
        ]
    );
    assert_eq!(whole(&reply), Bytes::from_static(b"x"));
}

#[test]
fn serving_a_hit_counts_what_it_saved() {
    let pricing = Pricing::from_env(&Vec::new());
    let answer = format!(
        "{{\"choices\":[{{\"message\":{{\"content\":\"{}\"}}}}]}}",
        "y".repeat(4_000_000)
    );
    let canonical = "x".repeat(8_000_000);
    let served = serve_hit(
        &pricing,
        "gpt-4o",
        &canonical,
        ResponseFormat::NonStreaming,
        hit(HitLayer::Semantic, &answer, ResponseFormat::NonStreaming),
        "0.8700",
        cost,
    );
    assert_eq!(served.report.tokens_saved, 3_000_000);
    // Two million input tokens at 2.50 and one million output tokens at 10.00.
    assert_eq!(served.report.saved_micros, 15_000_000);
    assert_eq!(served.report.model, "gpt-4o");
    match served.report.outcome {
        Outcome::Hit { layer, similarity } => {
            assert_eq!(layer, "semantic");
            assert_eq!(similarity, Some(Score { bits: 0.87_f32.to_bits() }));
        }
        _ => panic!("a hit is expected"),
    }
    let served = serve_hit(
        &pricing,
        "m",
        "user: hi",
        ResponseFormat::Streaming,
        hit(HitLayer::Exact, "data: x\n\n", ResponseFormat::Streaming),
        "1.0000",
        cost,
    );
    // No chat chunk: the raw nine bytes count.
    assert_eq!(served.report.tokens_saved, 4);
    assert_eq!(events(&served.reply).len(), 1);
    match served.report.outcome {
        Outcome::Hit { layer, similarity } => {
            assert_eq!(layer, "exact");
            assert_eq!(similarity, None);
        }
        _ => panic!("a hit is expected"),
    }
}

#[test]
fn only_complete_successful_answers_are_stored() {
    let ok = finish_miss("m", 200, &upstream_headers(), Bytes::from_static(b"{}"));
    let stored = ok.store.expect("stored");
    assert_eq!(
        pairs(&stored.headers),
        vec![
            ("content-type".to_string(), "application/json".to_string()),
            ("x-cachet".to_string(), "forged".to_string()),
        ]
    );
    assert_eq!(stored.format, ResponseFormat::NonStreaming);
    // The immediate requester still gets the cookie.
    assert_eq!(values(&ok.reply.headers, "set-cookie").len(), 1);
    assert_eq!(values(&ok.reply.headers, "content-length").len(), 0);
    assert_eq!(values(&ok.reply.headers, "x-cachet"), vec!["miss".to_string()]);
    assert_eq!(ok.report.tokens_saved, 0);
    assert!(matches!(ok.report.outcome, Outcome::Miss));

    assert!(finish_miss("m", 500, &upstream_headers(), Bytes::from_static(b"{}")).store.is_none());
    assert!(finish_miss("m", 201, &upstream_headers(), Bytes::from_static(b"{}")).store.is_none());
    let limit = Bytes::from(vec![b'x'; MAX_CACHEABLE_RESPONSE_BYTES]);
    assert!(finish_miss("m", 200, &upstream_headers(), limit).store.is_some());
    let over = Bytes::from(vec![b'x'; MAX_CACHEABLE_RESPONSE_BYTES + 1]);
    let miss = finish_miss("m", 200, &upstream_headers(), over);
    assert!(miss.store.is_none());
    assert_eq!(whole(&miss.reply).len(), MAX_CACHEABLE_RESPONSE_BYTES + 1);
}

#[test]
fn a_repeated_request_is_served_from_the_cache() {
    let mut cache = cache();
    let no_score = |_: &Vec<f32>| Score { bits: 0 };
    let decision = decide(analyze_request(REQUEST), &cache, 0, no_score);
    let (model, canonical) = match &decision {
        Decision::Miss { model, canonical, format } => {
            assert_eq!(*format, ResponseFormat::NonStreaming);
            (model.clone(), canonical.clone())
        }
        _ => panic!("the first request misses"),
    };
    assert!(matches!(relay(&decision, 200, &upstream_headers()), Some(Relay::Buffered)));
    let miss = finish_miss(&model, 200, &upstream_headers(), Bytes::from_static(b"PARIS"));
    cache.insert(&model, &canonical, miss.store.unwrap(), vec![0.0], 1, 2);

    match decide(analyze_request(REQUEST), &cache, 3, no_score) {
        Decision::Serve { model, canonical, format, hit } => {
            let pricing = Pricing::from_env(&Vec::new());
            let served = serve_hit(&pricing, &model, &canonical, format, hit, "1.0000", cost);
            assert_eq!(served.reply.status, 200);
            assert_eq!(whole(&served.reply), Bytes::from_static(b"PARIS"));
            assert_eq!(values(&served.reply.headers, "x-cachet"), vec!["hit".to_string()]);
            assert!(values(&served.reply.headers, "set-cookie").is_empty());
        }
        _ => panic!("the second request hits"),
    }
    // The streaming form of the same request does not.
    assert!(matches!(
        decide(analyze_request(STREAM_REQUEST), &cache, 3, no_score),
        Decision::Miss { .. }
    ));
}

#[test]
fn a_repeated_stream_is_replayed_byte_for_byte() {
    let mut cache = cache();
    let no_score = |_: &Vec<f32>| Score { bits: 0 };
    let decision = decide(analyze_request(STREAM_REQUEST), &cache, 0, no_score);
    let mut streamed = match relay(&decision, 200, &upstream_headers()) {
        Some(Relay::Streamed(s)) => s,
        _ => panic!("a stream is expected"),
    };
    assert_eq!(values(&streamed.headers, "x-cachet"), vec!["miss".to_string()]);
    let chunks = [&b"data: a\n"[..], b"\ndata: b\n\nda", b"ta: [DONE]\n\n"];
    for chunk in chunks {
        assert!(!streamed.tee.on_chunk(&Bytes::copy_from_slice(chunk)));
    }
    let (capture, note) = streamed.tee.on_end();
    assert_eq!(note, Some("completed"));
    assert!(capture.unwrap().commit(&mut cache, vec![0.0], 1, 2));

    match decide(analyze_request(STREAM_REQUEST), &cache, 3, no_score) {
        Decision::Serve { format, hit, .. } => {
            assert_eq!(format, ResponseFormat::Streaming);
            let reply = build_streamed_replay(hit, "1.0000");
            assert_eq!(events(&reply).len(), 3);
            assert_eq!(events(&reply).concat(), chunks.concat());
        }
        _ => panic!("the second request hits"),
    }
}

#[test]
fn bypassed_requests_are_passed_through() {
    let cache = cache();
    let decision = decide(CachePlan::Bypass, &cache, 0, |_: &Vec<f32>| Score { bits: 0 });
    assert!(matches!(decision, Decision::Bypass));
    let mut streamed = match relay(&decision, 200, &upstream_headers()) {
        Some(Relay::Streamed(s)) => s,
        _ => panic!("a stream is expected"),
    };
    assert_eq!(streamed.report.model, "");
    assert!(matches!(streamed.report.outcome, Outcome::Bypass));
    assert_eq!(values(&streamed.headers, "x-cachet"), vec!["bypass".to_string()]);
    assert_eq!(values(&streamed.headers, "content-length"), vec!["12".to_string()]);
    assert_eq!(values(&streamed.headers, "set-cookie").len(), 1);
    assert!(values(&streamed.headers, "connection").is_empty());
    assert!(!streamed.tee.on_chunk(&Bytes::from_static(b"x")));
    assert!(streamed.tee.on_end().0.is_none());
    assert_eq!(pass_through(418, &Vec::new()).status, 418);
}

#[test]
fn served_requests_have_nothing_to_relay() {
    let decision = Decision::Serve {
        model: "m".to_string(),
        canonical: "user: hi".to_string(),
        format: ResponseFormat::NonStreaming,
        hit: hit(HitLayer::Exact, "{}", ResponseFormat::NonStreaming),
    };
    assert!(relay(&decision, 200, &Vec::new()).is_none());
}

#[test]
fn failed_responses_are_streamed_but_not_captured() {
    let mut streamed = open_stream("m", "user: hi", 500, &upstream_headers());
    assert_eq!(streamed.status, 500);
    assert!(!streamed.tee.on_chunk(&Bytes::from_static(b"oops")));
    assert!(streamed.tee.on_end().0.is_none());
}

#[test]
fn request_bodies_are_bounded() {
    assert_eq!(MAX_REQUEST_BODY_BYTES, 100 * 1024 * 1024);
    assert_eq!(MAX_CACHEABLE_RESPONSE_BYTES, 8 * 1024 * 1024);
}

#[test]
fn credentials_and_queries_bear_on_the_upstream_request_alone() {
    let call = |token: &str, query: &str| {
        let headers = vec![Header::new("authorization", token), Header::new("accept", "*/*")];
        let path_and_query = format!("/v1/x{query}");
        match intake("http://up", "POST", "/v1/x", Some(path_and_query.as_str()), &headers) {
            Intake::Forward(call) => (call.url, pairs(&call.headers)),
            Intake::Dashboard(_) => panic!("must be forwarded"),
        }
    };
    let (url_a, headers_a) = call("Bearer a", "?key=1");
    let (url_b, headers_b) = call("Bearer b", "");
    assert_eq!((url_a.as_str(), url_b.as_str()), ("http://up/v1/x?key=1", "http://up/v1/x"));
    assert_eq!(headers_a[1], headers_b[1]);
    assert_ne!(headers_a[0], headers_b[0]);
    // On the reserved namespace neither matters at all.
    for (token, query) in [("Bearer a", "?key=1"), ("Bearer b", "")] {
        let path_and_query = format!("/__cachet/{query}");
        let headers = vec![Header::new("authorization", token)];
        assert!(matches!(
            intake("http://up", "GET", "/__cachet/", Some(path_and_query.as_str()), &headers),
            Intake::Dashboard(Route::Page)
        ));
    }
}
