use bytes::Bytes;
use cachet::cache::ResponseFormat;
use cachet::chat::{
    analyze_request, append_chunk, assistant_text_chars, choice_text, data_payload,
    extract_assistant_text, extract_content, lines, plan_request, CachePlan,
    MAX_CACHEABLE_PROMPT_BYTES, MAX_MODEL_LEN,
};
use cachet::json::Json;

fn cacheable(body: &[u8]) -> Option<(String, String)> {
    match analyze_request(body) {
        CachePlan::Cacheable { model, canonical, .. } => Some((model, canonical)),
        CachePlan::Bypass => None,
    }
}

fn chars(s: &str) -> Vec<char> {
    s.chars().collect()
}

fn object(members: Vec<(&str, Json)>) -> Json {
    Json::Object(members.into_iter().map(|(k, v)| (k.to_string(), v)).collect())
}

#[test]
fn extracts_streaming_assistant_text_only() {
    // Raw SSE (with framing) is much longer than the actual answer text.
    let sse = b"data: {\"choices\":[{\"delta\":{\"content\":\"Hello\"}}]}\n\n\
                data: {\"choices\":[{\"delta\":{\"content\":\" world\"}}]}\n\n\
                data: [DONE]\n\n";
    let body = Bytes::from_static(sse);
    let text = extract_assistant_text(&body, ResponseFormat::Streaming).unwrap();
    assert_eq!(text, "Hello world");
    // The text-only char count is far below the raw framed byte count.
    assert!(assistant_text_chars(&body, ResponseFormat::Streaming) < body.len());
    assert_eq!(assistant_text_chars(&body, ResponseFormat::Streaming), 11);
}

#[test]
fn extracts_non_streaming_assistant_text_only() {
    let json = br#"{"id":"x","object":"chat.completion","choices":[{"message":{"role":"assistant","content":"Paris"}}]}"#;
    let body = Bytes::from_static(json);
    assert_eq!(
        extract_assistant_text(&body, ResponseFormat::NonStreaming).unwrap(),
        "Paris"
    );
    assert_eq!(assistant_text_chars(&body, ResponseFormat::NonStreaming), 5);
}

#[test]
fn unknown_payload_falls_back_to_body_len() {
    let body = Bytes::from_static(b"not json at all");
    assert!(extract_assistant_text(&body, ResponseFormat::NonStreaming).is_none());
    assert_eq!(
        assistant_text_chars(&body, ResponseFormat::NonStreaming),
        body.len()
    );
}

#[test]
fn malformed_input_never_panics_and_bypasses() {
    let inputs: &[&[u8]] = &[
        b"",
        b"not json",
        b"{",
        b"[]",
        b"null",
        b"123",
        b"\xff\xfe\x00 not utf8 ish",
        br#"{"messages":[]}"#,
        br#"{"messages":"notarray"}"#,
        br#"{"model":123,"messages":[{"role":"user","content":"hi"}]}"#,
        br#"{"messages":[{"role":5,"content":{"x":1}}]}"#,
        br#"{"model":null,"messages":[{"content":null}]}"#,
    ];
    for inp in inputs {
        // Just must not panic; result type is irrelevant here.
        let _ = analyze_request(&Bytes::copy_from_slice(inp));
    }
    // A non-string model is tolerated and becomes the empty namespace.
    let (model, _) =
        cacheable(br#"{"model":123,"messages":[{"role":"user","content":"hi"}]}"#).unwrap();
    assert_eq!(model, "");
}

#[test]
fn malformed_requests_are_bypassed_one_by_one() {
    for body in [
        &b""[..],
        b"not json",
        b"{",
        b"[]",
        b"null",
        b"123",
        b"\xff\xfe\x00 not utf8 ish",
        br#"{"messages":[]}"#,
        br#"{"messages":"notarray"}"#,
        br#"{"model":"gpt-4o"}"#,
    ] {
        assert!(cacheable(body).is_none());
    }
}

#[test]
fn model_is_length_capped() {
    let huge = "x".repeat(10_000);
    let body = format!(
        r#"{{"model":"{huge}","messages":[{{"role":"user","content":"hi"}}]}}"#
    );
    let (model, _) = cacheable(body.as_bytes()).unwrap();
    assert_eq!(model.chars().count(), MAX_MODEL_LEN);
}

#[test]
fn model_is_capped_by_characters() {
    let at = "é".repeat(96);
    let body = format!(r#"{{"model":"{at}ü","messages":[{{"content":"hi"}}]}}"#);
    let (model, canonical) = cacheable(body.as_bytes()).unwrap();
    assert_eq!(model, at);
    assert_eq!(canonical, "user: hi");
}

#[test]
fn oversized_prompt_bypasses_cache() {
    let huge = "word ".repeat(MAX_CACHEABLE_PROMPT_BYTES / 5 + 100);
    let body = format!(
        r#"{{"model":"gpt-4o","messages":[{{"role":"user","content":"{huge}"}}]}}"#
    );
    assert!(cacheable(body.as_bytes()).is_none(), "huge prompt must bypass");
}

#[test]
fn prompt_limit_is_counted_in_bytes() {
    let fits = "x".repeat(131_072 - 6);
    let body = format!(r#"{{"messages":[{{"content":"{fits}"}}]}}"#);
    assert_eq!(cacheable(body.as_bytes()).unwrap().1.len(), 131_072);
    let body = format!(r#"{{"messages":[{{"content":"{fits}x"}}]}}"#);
    assert!(cacheable(body.as_bytes()).is_none());
    let wide = "é".repeat(70_000);
    let body = format!(r#"{{"messages":[{{"content":"{wide}"}}]}}"#);
    assert!(cacheable(body.as_bytes()).is_none());
}

#[test]
fn conversations_are_canonicalized_line_by_line() {
    let (model, canonical) = cacheable(
        br#"{"model":"gpt-4o","messages":[
            {"role":"system","content":"Be brief."},
            {"role":"user","content":[{"type":"text","text":"Hi"},{"type":"image_url"},{"text":"there"}]},
            {"role":7,"content":{"b":1,"a":[true,null,1.5]}},
            {"content":null},
            {}
        ]}"#,
    )
    .unwrap();
    assert_eq!(model, "gpt-4o");
    assert_eq!(
        canonical,
        "system: Be brief.\nuser: Hi there\nuser: {\"a\":[true,null,1.5],\"b\":1}\nuser: null\nuser: "
    );
}

#[test]
fn stream_flag_selects_the_format() {
    for (flag, expected) in [
        ("true", ResponseFormat::Streaming),
        ("false", ResponseFormat::NonStreaming),
        ("\"true\"", ResponseFormat::NonStreaming),
        ("1", ResponseFormat::NonStreaming),
    ] {
        let body = format!(r#"{{"stream":{flag},"messages":[{{"content":"hi"}}]}}"#);
        match analyze_request(body.as_bytes()) {
            CachePlan::Cacheable { format, .. } => assert_eq!(format, expected),
            CachePlan::Bypass => panic!("must be cacheable"),
        }
    }
    match analyze_request(br#"{"messages":[{"content":"hi"}]}"#) {
        CachePlan::Cacheable { format, .. } => assert_eq!(format, ResponseFormat::NonStreaming),
        CachePlan::Bypass => panic!("must be cacheable"),
    }
}

#[test]
fn plans_are_made_from_plain_values() {
    let request = object(vec![
        ("model", Json::Text("m".to_string())),
        ("stream", Json::Bool(true)),
        (
            "messages",
            Json::List(vec![object(vec![("content", Json::Text("hi".to_string()))])]),
        ),
    ]);
    match plan_request(&request) {
        CachePlan::Cacheable { model, canonical, format } => {
            assert_eq!(model, "m");
            assert_eq!(canonical, "user: hi");
            assert_eq!(format, ResponseFormat::Streaming);
        }
        CachePlan::Bypass => panic!("must be cacheable"),
    }
    assert!(matches!(plan_request(&Json::Null), CachePlan::Bypass));
}

#[test]
fn content_of_every_shape() {
    assert_eq!(extract_content(None), "");
    assert_eq!(extract_content(Some(&Json::Null)), "null");
    assert_eq!(extract_content(Some(&Json::Bool(true))), "true");
    assert_eq!(extract_content(Some(&Json::Bool(false))), "false");
    assert_eq!(extract_content(Some(&Json::Integer(-12))), "-12");
    assert_eq!(extract_content(Some(&Json::Real("0.25".to_string()))), "0.25");
    assert_eq!(extract_content(Some(&Json::Text("plain".to_string()))), "plain");
    assert_eq!(
        extract_content(Some(&object(vec![("k", Json::Text("a\"b".to_string()))]))),
        "{\"k\":\"a\\\"b\"}"
    );
    let parts = Json::List(vec![
        object(vec![("text", Json::Text(String::new()))]),
        object(vec![("text", Json::Text("one".to_string()))]),
        object(vec![("text", Json::Integer(2))]),
        Json::Text("skipped".to_string()),
        object(vec![("text", Json::Text("two".to_string()))]),
    ]);
    assert_eq!(extract_content(Some(&parts)), "one two");
}

#[test]
fn several_choices_are_put_together() {
    let body = br#"{"choices":[{"message":{"content":"a"}},{"message":{"content":null}},{"message":{}},{},{"message":{"content":"b"}}]}"#;
    assert_eq!(
        extract_assistant_text(body, ResponseFormat::NonStreaming),
        Some("ab".to_string())
    );
    assert_eq!(
        extract_assistant_text(br#"{"choices":[]}"#, ResponseFormat::NonStreaming),
        Some(String::new())
    );
    assert_eq!(extract_assistant_text(br#"{"choices":{}}"#, ResponseFormat::NonStreaming), None);
    assert_eq!(extract_assistant_text(br#"{"id":1}"#, ResponseFormat::NonStreaming), None);
    assert_eq!(choice_text(&Json::Null, "message"), None);
}

#[test]
fn streams_without_chat_chunks_have_no_text() {
    let none = |body: &[u8]| extract_assistant_text(body, ResponseFormat::Streaming).is_none();
    assert!(none(b""));
    assert!(none(b"data: [DONE]\n\n"));
    assert!(none(b"event: ping\ndata: {\"type\":\"x\"}\n\n"));
    assert!(none(b"data: not json\n\n"));
    assert!(none(b"data: \xff\n\n"));
    assert_eq!(assistant_text_chars(b"data: \xff\n\n", ResponseFormat::Streaming), 9);
    // A chat chunk without text is recognized, and its text is empty.
    assert_eq!(
        extract_assistant_text(b"data:{\"choices\":[{\"delta\":{}}]}\r\n\r\n", ResponseFormat::Streaming),
        Some(String::new())
    );
}

#[test]
fn answer_length_is_counted_in_characters() {
    let body = "{\"choices\":[{\"message\":{\"content\":\"Élysée\"}}]}";
    assert_eq!(assistant_text_chars(body.as_bytes(), ResponseFormat::NonStreaming), 6);
    let sse = "data: {\"choices\":[{\"delta\":{\"content\":\"Élysée\"}}]}\n\n";
    assert_eq!(assistant_text_chars(sse.as_bytes(), ResponseFormat::Streaming), 6);
}

#[test]
fn lines_end_at_newlines() {
    let got = |s: &str| -> Vec<String> {
        lines(&chars(s)).iter().map(|l| l.iter().collect()).collect()
    };
    for s in ["", "\n", "a", "a\n", "a\r\nb", "a\n\nb\r", "\r\n", "x\r\r\ny\n"] {
        let expected: Vec<String> = s.lines().map(|l| l.to_string()).collect();
        assert_eq!(got(s), expected, "{s:?}");
    }
}

#[test]
fn payloads_of_data_lines() {
    assert_eq!(data_payload(&chars("data: x y ")), Some("x y".to_string()));
    assert_eq!(data_payload(&chars("  data:{}")), Some("{}".to_string()));
    assert_eq!(data_payload(&chars("data:")), None);
    assert_eq!(data_payload(&chars("data:   ")), None);
    assert_eq!(data_payload(&chars("data: [DONE]")), None);
    assert_eq!(data_payload(&chars("event: x")), None);
    assert_eq!(data_payload(&chars("data")), None);
}

#[test]
fn chunks_are_appended() {
    let some = |s: &str| Some(s.to_string());
    assert_eq!(append_chunk(None, None), None);
    assert_eq!(append_chunk(None, some("a")), some("a"));
    assert_eq!(append_chunk(some("a"), None), some("a"));
    assert_eq!(append_chunk(some("a"), some("b")), some("ab"));
}

#[test]
fn the_answer_never_outgrows_the_body() {
    let bodies: [(&str, ResponseFormat); 5] = [
        (r#"{"choices":[{"message":{"content":"\u0041\u00e9\ud83d\ude00\n"}}]}"#, ResponseFormat::NonStreaming),
        (r#"{"choices":[{"message":{"content":"a"}},{"message":{"content":"bb"}}]}"#, ResponseFormat::NonStreaming),
        ("data:{\"choices\":[{\"delta\":{\"content\":\"x\"}}]}\r\ndata:{\"choices\":[]}\n", ResponseFormat::Streaming),
        ("not json", ResponseFormat::NonStreaming),
        ("", ResponseFormat::Streaming),
    ];
    let expected = [4, 3, 1, 8, 0];
    for ((body, format), n) in bodies.iter().zip(expected) {
        assert_eq!(assistant_text_chars(body.as_bytes(), *format), n, "{body}");
        assert!(n <= body.len());
    }
}

#[test]
fn a_stream_cut_after_a_line_break_has_the_text_of_its_parts() {
    let text = |s: &str| extract_assistant_text(s.as_bytes(), ResponseFormat::Streaming);
    let a = "data: {\"choices\":[{\"delta\":{\"content\":\"Hé\"}}]}\r\n\n";
    let b = "data: {\"choices\":[{\"delta\":{\"content\":\"llo\"}}]}\n\ndata: [DONE]";
    let c = "event: ping\n";
    for (x, y) in [(a, b), (a, c), (c, b), (a, ""), (c, c), (c, "")] {
        let whole = format!("{x}{y}");
        assert_eq!(text(&whole), append_chunk(text(x), text(y)), "{whole:?}");
    }
    assert_eq!(text(&format!("{a}{b}")), Some("Héllo".to_string()));
}
