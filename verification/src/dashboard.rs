//! The routes of the built-in dashboard, on the reserved `/__cachet` namespace.
use crate::text::{chars_of, has_prefix, law_has_prefix, same_text, starts_with};
use crate::PROJECT_SLUG;
use vstd::prelude::*;

verus! {

/// Whether a path belongs to the dashboard. Such a request is handled locally and
/// never forwarded.
pub open spec fn reserved(path: Seq<char>) -> bool {
    path == "/__cachet"@ || has_prefix(path, "/__cachet/"@)
}

/// Whether a path belongs to the dashboard.
pub fn is_reserved(path: &str) -> (r: bool)
    ensures
        r == reserved(path@),
{
    same_text(path, "/__cachet") || starts_with(
        chars_of(path).as_slice(),
        chars_of("/__cachet/").as_slice(),
    )
}

/// How a dashboard request is answered.
#[derive(Debug, Clone, Copy, PartialEq, Eq, Structural)]
pub enum Route {
    /// The dashboard page.
    Page,
    /// The live event feed.
    Events,
    /// A known path asked for with another method than GET.
    MethodNotAllowed,
    /// An unknown path.
    NotFound,
}

impl Route {
    /// The status of the answer.
    pub open spec fn spec_status(self) -> u16 {
        match self {
            Route::Page => 200,
            Route::Events => 200,
            Route::MethodNotAllowed => 405,
            Route::NotFound => 404,
        }
    }

    /// The status of the answer.
    pub fn status(self) -> (s: u16)
        ensures
            s == self.spec_status(),
    {
        match self {
            Route::Page => 200,
            Route::Events => 200,
            Route::MethodNotAllowed => 405,
            Route::NotFound => 404,
        }
    }

    /// The message of a refusal.
    pub open spec fn spec_refusal(self) -> Option<Seq<char>> {
        match self {
            Route::Page => None,
            Route::Events => None,
            Route::MethodNotAllowed => Some("use GET"@),
            Route::NotFound => Some("unknown cachet endpoint"@),
        }
    }

    /// The message of a refusal; nothing for a route that is served.
    pub fn refusal(self) -> (r: Option<&'static str>)
        ensures
            match r {
                Some(m) => self.spec_refusal() == Some(m@),
                None => self.spec_refusal() is None,
            },
    {
        match self {
            Route::Page => None,
            Route::Events => None,
            Route::MethodNotAllowed => Some("use GET"),
            Route::NotFound => Some("unknown cachet endpoint"),
        }
    }
}

/// The route of a method and path.
pub open spec fn route_of(method: Seq<char>, path: Seq<char>) -> Route {
    if path == "/__cachet"@ || path == "/__cachet/"@ {
        if method == "GET"@ {
            Route::Page
        } else {
            Route::MethodNotAllowed
        }
    } else if path == "/__cachet/events"@ || path == "/__cachet/stats"@ {
        if method == "GET"@ {
            Route::Events
        } else {
            Route::MethodNotAllowed
        }
    } else {
        Route::NotFound
    }
}

/// Routes a reserved request.
pub fn route(method: &str, path: &str) -> (r: Route)
    ensures
        r == route_of(method@, path@),
{
    if same_text(path, "/__cachet") || same_text(path, "/__cachet/") {
        if same_text(method, "GET") {
            Route::Page
        } else {
            Route::MethodNotAllowed
        }
    } else if same_text(path, "/__cachet/events") || same_text(path, "/__cachet/stats") {
        if same_text(method, "GET") {
            Route::Events
        } else {
            Route::MethodNotAllowed
        }
    } else {
        Route::NotFound
    }
}

/// The JSON body of a refusal.
pub open spec fn refusal_body(message: Seq<char>) -> Seq<char> {
    "{\"error\":{\"type\":\"cachet_endpoint\",\"message\":\""@ + message + "\",\"proxy\":\""@
        + PROJECT_SLUG@ + "\"}}"@
}

/// The JSON body of a refusal.
pub fn simple(message: &str) -> (r: String)
    ensures
        r@ == refusal_body(message@),
{
    let mut body = String::new();
    body.append("{\"error\":{\"type\":\"cachet_endpoint\",\"message\":\"");
    body.append(message);
    body.append("\",\"proxy\":\"");
    body.append(PROJECT_SLUG);
    body.append("\"}}");
    assert(body@ =~= refusal_body(message@));
    body
}

/// Only reserved paths have a route, and only a GET is served.
pub proof fn law_served_paths_are_reserved(method: Seq<char>, path: Seq<char>)
    ensures
        route_of(method, path) != Route::NotFound ==> reserved(path),
        route_of(method, path) == Route::Page || route_of(method, path) == Route::Events
            ==> method == "GET"@,
{
    reveal_strlit("/__cachet/");
    reveal_strlit("/__cachet/events");
    reveal_strlit("/__cachet/stats");
    assert("/__cachet/"@.take("/__cachet/"@.len() as int) =~= "/__cachet/"@);
    assert("/__cachet/events"@.take("/__cachet/"@.len() as int) =~= "/__cachet/"@);
    assert("/__cachet/stats"@.take("/__cachet/"@.len() as int) =~= "/__cachet/"@);
}

/// Which paths are reserved, and how each is answered.
pub proof fn law_routes(method: Seq<char>, path: Seq<char>, rest: Seq<char>)
    ensures
        reserved("/__cachet"@),
        reserved("/__cachet/"@ + rest),
        reserved(path) ==> path == "/__cachet"@ || path == "/__cachet/"@ + path.skip(10),
        route_of(method, path) == Route::Page <==> method == "GET"@ && (path == "/__cachet"@ || path
            == "/__cachet/"@),
        route_of(method, path) == Route::Events <==> method == "GET"@ && (path
            == "/__cachet/events"@ || path == "/__cachet/stats"@),
        route_of(method, path) == Route::MethodNotAllowed <==> method != "GET"@ && (path
            == "/__cachet"@ || path == "/__cachet/"@ || path == "/__cachet/events"@ || path
            == "/__cachet/stats"@),
{
    reveal_strlit("/__cachet");
    reveal_strlit("/__cachet/");
    reveal_strlit("/__cachet/events");
    reveal_strlit("/__cachet/stats");
    assert("/__cachet"@.len() == 9);
    assert("/__cachet/"@.len() == 10);
    assert("/__cachet/events"@.len() == 16);
    assert("/__cachet/stats"@.len() == 15);
    law_has_prefix("/__cachet/"@, rest, path);
}

/// The status and the message of each route, and the body that tells a refusal.
pub proof fn law_refusals(message: Seq<char>)
    ensures
        Route::Page.spec_status() == 200 && Route::Page.spec_refusal() is None,
        Route::Events.spec_status() == 200 && Route::Events.spec_refusal() is None,
        Route::MethodNotAllowed.spec_status() == 405,
        Route::MethodNotAllowed.spec_refusal() == Some("use GET"@),
        Route::NotFound.spec_status() == 404,
        Route::NotFound.spec_refusal() == Some("unknown cachet endpoint"@),
        refusal_body(message) == "{\"error\":{\"type\":\"cachet_endpoint\",\"message\":\""@
            + message + "\",\"proxy\":\""@ + "cachet"@ + "\"}}"@,
{
}

} // verus!
