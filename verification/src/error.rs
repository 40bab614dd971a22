//! Proxy errors and how they are told to the client.
use crate::json::{member_views, render_json, rendered_json, Json, JsonView};
use crate::PROJECT_SLUG;
use vstd::prelude::*;

verus! {

/// What can go wrong with a request.
pub enum ProxyError {
    /// The upstream could not be reached, or the connection failed mid-flight.
    Upstream,
    /// The incoming request body could not be read.
    InvalidRequestBody(String),
    /// The response could not be built.
    Internal(String),
}

impl ProxyError {
    /// The HTTP status of an error.
    pub open spec fn spec_status(self) -> u16 {
        match self {
            ProxyError::Upstream => 502,
            ProxyError::InvalidRequestBody(_) => 400,
            ProxyError::Internal(_) => 500,
        }
    }

    /// The machine-readable type of an error.
    pub open spec fn spec_kind(self) -> Seq<char> {
        match self {
            ProxyError::Upstream => "upstream_unreachable"@,
            ProxyError::InvalidRequestBody(_) => "invalid_request"@,
            ProxyError::Internal(_) => "internal_error"@,
        }
    }

    /// The message that the client sees, which is fixed for each kind of error.
    pub open spec fn spec_message(self) -> Seq<char> {
        match self {
            ProxyError::Upstream => "upstream request failed"@,
            ProxyError::InvalidRequestBody(_) => "could not read request body"@,
            ProxyError::Internal(_) => "internal proxy error"@,
        }
    }

    /// Status, machine-readable type and client-facing message. The underlying
    /// error is never echoed.
    pub fn parts(&self) -> (r: (u16, &'static str, &'static str))
        ensures
            r.0 == self.spec_status(),
            r.1@ == self.spec_kind(),
            r.2@ == self.spec_message(),
    {
        match self {
            ProxyError::Upstream => (502, "upstream_unreachable", "upstream request failed"),
            ProxyError::InvalidRequestBody(_) => (
                400,
                "invalid_request",
                "could not read request body",
            ),
            ProxyError::Internal(_) => (500, "internal_error", "internal proxy error"),
        }
    }

    /// The JSON body of the response that tells the error.
    pub fn body(&self) -> (r: String)
        ensures
            r@ == rendered_json(error_json(self.spec_kind(), self.spec_message())),
    {
        let (_, kind, message) = self.parts();
        render_json(&error_value(kind, message))
    }
}

/// The JSON value that tells an error to the client.
pub open spec fn error_json(kind: Seq<char>, message: Seq<char>) -> JsonView {
    JsonView::Object(
        seq![
            (
                "error"@,
                JsonView::Object(
                    seq![
                        ("type"@, JsonView::Text(kind)),
                        ("message"@, JsonView::Text(message)),
                        ("proxy"@, JsonView::Text(PROJECT_SLUG@)),
                    ],
                ),
            ),
        ],
    )
}

/// Builds the JSON value that tells an error to the client.
pub fn error_value(kind: &str, message: &str) -> (r: Json)
    ensures
        r@ == error_json(kind@, message@),
{
    let mut detail: Vec<(String, Json)> = Vec::new();
    detail.push(("type".to_owned(), Json::text(kind)));
    detail.push(("message".to_owned(), Json::text(message)));
    detail.push(("proxy".to_owned(), Json::text(PROJECT_SLUG)));
    assert(member_views(detail@) =~= seq![
        ("type"@, JsonView::Text(kind@)),
        ("message"@, JsonView::Text(message@)),
        ("proxy"@, JsonView::Text(PROJECT_SLUG@)),
    ]);
    let mut members: Vec<(String, Json)> = Vec::new();
    members.push(("error".to_owned(), Json::object(detail)));
    assert(member_views(members@) =~= error_json(kind@, message@)->Object_0);
    Json::object(members)
}

/// What the client is told depends on the kind of error alone, not on its detail.
pub proof fn law_error_detail_is_not_told(a: String, b: String)
    ensures
        ({
            let x = ProxyError::InvalidRequestBody(a);
            let y = ProxyError::InvalidRequestBody(b);
            x.spec_status() == y.spec_status() && x.spec_kind() == y.spec_kind() && x.spec_message()
                == y.spec_message()
        }),
        ({
            let x = ProxyError::Internal(a);
            let y = ProxyError::Internal(b);
            x.spec_status() == y.spec_status() && x.spec_kind() == y.spec_kind() && x.spec_message()
                == y.spec_message()
        }),
{
}

/// What the client is told of each error.
pub proof fn law_errors_are_told(detail: String)
    ensures
        ProxyError::Upstream.spec_status() == 502,
        ProxyError::Upstream.spec_kind() == "upstream_unreachable"@,
        ProxyError::Upstream.spec_message() == "upstream request failed"@,
        ProxyError::InvalidRequestBody(detail).spec_status() == 400,
        ProxyError::InvalidRequestBody(detail).spec_kind() == "invalid_request"@,
        ProxyError::InvalidRequestBody(detail).spec_message() == "could not read request body"@,
        ProxyError::Internal(detail).spec_status() == 500,
        ProxyError::Internal(detail).spec_kind() == "internal_error"@,
        ProxyError::Internal(detail).spec_message() == "internal proxy error"@,
{
}

/// How an error is told: under `error`, by its type, its message and the proxy's name.
pub proof fn law_error_members(kind: Seq<char>, message: Seq<char>)
    ensures
        error_json(kind, message) matches JsonView::Object(members) && members.len() == 1
            && members[0].0 == "error"@ && (members[0].1 matches JsonView::Object(inner) && inner
            == seq![
            ("type"@, JsonView::Text(kind)),
            ("message"@, JsonView::Text(message)),
            ("proxy"@, JsonView::Text("cachet"@)),
        ]),
{
}

} // verus!
