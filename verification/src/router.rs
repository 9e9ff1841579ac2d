//! What a request is answered.
use crate::page::{page, upload_page};
use crate::query::{query_map, query_params};
use crate::request::{without_query, HttpRequestHead};
use crate::response::{text_response, HttpResponse, Response};
use crate::text::same_text;
use vstd::prelude::*;

verus! {

/// What is done about a request whose head has been read.
pub enum ConnectionAction {
    /// The response is sent, and the connection ends.
    Respond(HttpResponse),
    /// The upload that the request brings is received.
    ReceiveUpload,
}

/// What is done about a request, as a model.
pub enum Action {
    Respond(Response),
    ReceiveUpload,
}

impl View for ConnectionAction {
    type V = Action;

    open spec fn view(&self) -> Action {
        match *self {
            ConnectionAction::Respond(response) => Action::Respond(response@),
            ConnectionAction::ReceiveUpload => Action::ReceiveUpload,
        }
    }
}

/// Whether the query of `path` bears the token.
pub open spec fn bears_token(path: Seq<char>, token: Seq<char>) -> bool {
    query_map(path).contains_key("token"@) && query_map(path)["token"@] == token
}

/// The response to a request that does not bear the token.
pub open spec fn forbidden() -> Response {
    text_response(403, "text/plain"@, "Forbidden"@)
}

/// The response to a request for something that is not there.
pub open spec fn not_found() -> Response {
    text_response(404, "text/plain"@, "Not found"@)
}

/// What is done about a request of the given method and path. One that does not bear the token is
/// forbidden, whatever it asks for. The others get the page, a sign of life, their upload received,
/// or nothing.
pub open spec fn action_for(method: Seq<char>, path: Seq<char>, token: Seq<char>) -> Action {
    let place = without_query(path);
    if !bears_token(path, token) {
        Action::Respond(forbidden())
    } else if method == "GET"@ && place == "/"@ {
        Action::Respond(text_response(200, "text/html; charset=utf-8"@, page(token)))
    } else if method == "GET"@ && place == "/health"@ {
        Action::Respond(text_response(200, "application/json"@, "{\"ok\":true}"@))
    } else if method == "POST"@ && place == "/upload"@ {
        Action::ReceiveUpload
    } else {
        Action::Respond(not_found())
    }
}

/// What is done about `request`, where uploads have to bear `token`.
pub fn handle_connection(request: &HttpRequestHead, token: &str) -> (action: ConnectionAction)
    ensures
        action@ == action_for(request.method@, request.path@, token@),
{
    let params = query_params(request.path.as_str());
    let token_ok = match params.get("token") {
        Some(provided) => same_text(provided.as_str(), token),
        None => false,
    };
    assert(token_ok == bears_token(request.path@, token@));
    if !token_ok {
        return ConnectionAction::Respond(HttpResponse::text(403, "text/plain", "Forbidden"));
    }
    let place = request.path_without_query();
    let method = request.method.as_str();
    let is_get = same_text(method, "GET");
    let is_post = same_text(method, "POST");
    if is_get && same_text(place.as_str(), "/") {
        let html = upload_page(token);
        ConnectionAction::Respond(
            HttpResponse::text(200, "text/html; charset=utf-8", html.as_str()),
        )
    } else if is_get && same_text(place.as_str(), "/health") {
        ConnectionAction::Respond(HttpResponse::text(200, "application/json", "{\"ok\":true}"))
    } else if is_post && same_text(place.as_str(), "/upload") {
        ConnectionAction::ReceiveUpload
    } else {
        ConnectionAction::Respond(HttpResponse::text(404, "text/plain", "Not found"))
    }
}

} // verus!
