use cachet::headers::{
    append_headers, cacheable_headers, collect_response_headers, copy_response_headers,
    duplicate_headers, eq_ignore_ascii_case, forward_request_headers, is_hop_by_hop,
    is_uncacheable_response_header, set_header, Header,
};

fn names(headers: &[Header]) -> Vec<&str> {
    headers.iter().map(|h| h.name.as_str()).collect()
}

fn sample() -> Vec<Header> {
    [
        "host",
        "content-length",
        "connection",
        "keep-alive",
        "proxy-authenticate",
        "proxy-authorization",
        "te",
        "trailers",
        "transfer-encoding",
        "upgrade",
        "authorization",
        "set-cookie",
        "set-cookie2",
        "content-type",
    ]
    .iter()
    .map(|n| Header::new(n, "v"))
    .collect()
}

#[test]
fn set_cookie_is_not_cached() {
    let headers = vec![
        Header::new("content-type", "application/json"),
        Header::new("set-cookie", "session=secret; HttpOnly"),
    ];
    let kept = cacheable_headers(&headers);
    assert!(kept.iter().all(|h| h.name != "set-cookie"));
    assert!(kept.iter().any(|h| h.name == "content-type"));
}

#[test]
fn hop_by_hop_headers_are_recognized_in_any_case() {
    for name in ["connection", "Keep-Alive", "TE", "trailers", "Transfer-Encoding", "UPGRADE",
        "proxy-authenticate", "Proxy-Authorization"] {
        assert!(is_hop_by_hop(name), "{name}");
    }
    for name in ["host", "trailer", "authorization", "", "connections", "content-length"] {
        assert!(!is_hop_by_hop(name), "{name}");
    }
}

#[test]
fn ascii_case_is_ignored_and_no_other() {
    assert!(eq_ignore_ascii_case("AbC-1", "aBc-1"));
    assert!(!eq_ignore_ascii_case("ab", "abc"));
    assert!(!eq_ignore_ascii_case("É", "é"));
    assert!(!eq_ignore_ascii_case("@", "`"));
    assert!(!eq_ignore_ascii_case("[", "{"));
}

#[test]
fn request_headers_upstream() {
    assert_eq!(
        names(&forward_request_headers(&sample())),
        vec!["authorization", "set-cookie", "set-cookie2", "content-type"]
    );
}

#[test]
fn response_headers_passed_through() {
    let mut out = vec![Header::new("first", "1")];
    copy_response_headers(&sample(), &mut out);
    assert_eq!(
        names(&out),
        vec!["first", "host", "content-length", "authorization", "set-cookie", "set-cookie2", "content-type"]
    );
}

#[test]
fn response_headers_of_a_miss() {
    assert_eq!(
        names(&collect_response_headers(&sample())),
        vec!["host", "authorization", "set-cookie", "set-cookie2", "content-type"]
    );
}

#[test]
fn per_requester_headers_are_uncacheable() {
    assert!(is_uncacheable_response_header("set-cookie"));
    assert!(is_uncacheable_response_header("set-cookie2"));
    assert!(!is_uncacheable_response_header("set-cookie3"));
    assert_eq!(cacheable_headers(&sample()).len(), 12);
}

#[test]
fn setting_a_header_replaces_all_of_its_name() {
    let mut out = vec![Header::new("a", "1"), Header::new("b", "2"), Header::new("a", "3")];
    set_header(&mut out, Header::new("a", "4"));
    assert_eq!(names(&out), vec!["b", "a"]);
    assert_eq!(out[1].value, b"4".to_vec());
    set_header(&mut out, Header::new("c", "5"));
    assert_eq!(names(&out), vec!["b", "a", "c"]);
}

#[test]
fn header_lists_are_copied_in_order() {
    let list = vec![Header::new("a", "é"), Header { name: "b".to_string(), value: vec![0xff, 0] }];
    let copy = duplicate_headers(&list);
    assert_eq!(names(&copy), vec!["a", "b"]);
    assert_eq!(copy[0].value, "é".as_bytes().to_vec());
    assert_eq!(copy[1].value, vec![0xff, 0]);
    let mut out = duplicate_headers(&list);
    append_headers(&mut out, &list);
    assert_eq!(names(&out), vec!["a", "b", "a", "b"]);
    assert_eq!(list[1].duplicate().value, vec![0xff, 0]);
}
