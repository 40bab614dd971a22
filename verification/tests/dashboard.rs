use cachet::dashboard::{is_reserved, route, simple, Route};
use cachet::error::{error_value, ProxyError};
use cachet::{PROJECT_NAME, PROJECT_SLUG};

#[test]
fn routes_of_the_dashboard() {
    for path in ["/__cachet", "/__cachet/"] {
        assert_eq!(route("GET", path), Route::Page);
        assert_eq!(route("POST", path), Route::MethodNotAllowed);
        assert_eq!(route("HEAD", path), Route::MethodNotAllowed);
    }
    for path in ["/__cachet/events", "/__cachet/stats"] {
        assert_eq!(route("GET", path), Route::Events);
        assert_eq!(route("DELETE", path), Route::MethodNotAllowed);
    }
    for path in ["/__cachet/x", "/__cachet/events/", "/", ""] {
        assert_eq!(route("GET", path), Route::NotFound);
        assert_eq!(route("POST", path), Route::NotFound);
    }
}

#[test]
fn reserved_namespace() {
    for path in ["/__cachet", "/__cachet/", "/__cachet/anything/else"] {
        assert!(is_reserved(path), "{path}");
    }
    for path in ["/__cache", "/__cachetx", "/v1/chat/completions", "__cachet", ""] {
        assert!(!is_reserved(path), "{path}");
    }
}

#[test]
fn answers_of_routes() {
    assert_eq!(Route::Page.status(), 200);
    assert_eq!(Route::Events.status(), 200);
    assert_eq!(Route::MethodNotAllowed.status(), 405);
    assert_eq!(Route::NotFound.status(), 404);
    assert_eq!(Route::Page.refusal(), None);
    assert_eq!(Route::Events.refusal(), None);
    assert_eq!(Route::MethodNotAllowed.refusal(), Some("use GET"));
    assert_eq!(Route::NotFound.refusal(), Some("unknown cachet endpoint"));
}

#[test]
fn refusal_bodies() {
    assert_eq!(
        simple("use GET"),
        r#"{"error":{"type":"cachet_endpoint","message":"use GET","proxy":"cachet"}}"#
    );
}

#[test]
fn errors_are_told_without_their_detail() {
    let upstream = ProxyError::Upstream;
    let body = ProxyError::InvalidRequestBody("secret detail".to_string());
    let internal = ProxyError::Internal("secret detail".to_string());
    assert_eq!(upstream.parts(), (502, "upstream_unreachable", "upstream request failed"));
    assert_eq!(body.parts(), (400, "invalid_request", "could not read request body"));
    assert_eq!(internal.parts(), (500, "internal_error", "internal proxy error"));
    assert_eq!(
        upstream.body(),
        r#"{"error":{"message":"upstream request failed","proxy":"cachet","type":"upstream_unreachable"}}"#
    );
    assert!(!body.body().contains("secret"));
    assert!(!internal.body().contains("secret"));
    let value = error_value("k", "m");
    let detail = value.get("error").unwrap();
    assert_eq!(detail.get("type").unwrap().as_str(), Some("k"));
    assert_eq!(detail.get("message").unwrap().as_str(), Some("m"));
    assert_eq!(detail.get("proxy").unwrap().as_str(), Some(PROJECT_SLUG));
    assert_eq!(PROJECT_NAME, "Cachet");
}
