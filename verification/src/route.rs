//! Which endpoint a request is for.

use bytes::Bytes;
use vstd::prelude::*;
use vstd::utf8::*;

use crate::buffer;
use crate::header;
use crate::reply;
use crate::reply::Reply;
use crate::text;

verus! {

/// The version that the service index reports.
pub const VERSION: &'static str = "0.1.0";

/// Both service responses are fixed text.
pub const HEALTHZ_BODY: &'static str = "{\"status\":\"ok\"}";

pub const INDEX_BODY: &'static str = "{\"name\":\"llm-relay\",\"version\":\"0.1.0\",\"endpoints\":[\"POST /v1/chat/completions\",\"GET /egress\",\"GET /healthz\"]}";

/// What is to be done about a request.
pub enum Route {
    /// Report the source address that upstream sees.
    Egress,
    /// Relay a chat completion.
    Chat,
    /// Send this answer.
    Answer(Reply),
}

/// The paths that take a chat completion.
pub open spec fn is_chat_path(path: Seq<char>) -> bool {
    path == "/v1/chat/completions"@ || path == "/chat/completions"@
}

/// The paths that are read.
pub open spec fn is_service_path(path: Seq<char>) -> bool {
    path == "/healthz"@ || path == "/egress"@ || path == "/"@
}

/// No two of the paths are the same.
proof fn lemma_paths_differ()
    ensures
        "/v1/chat/completions"@.len() == 20,
        "/chat/completions"@.len() == 17,
        "/healthz"@.len() == 8,
        "/egress"@.len() == 7,
        "/"@.len() == 1,
{
    reveal_strlit("/v1/chat/completions");
    reveal_strlit("/chat/completions");
    reveal_strlit("/healthz");
    reveal_strlit("/egress");
    reveal_strlit("/");
}

/// The endpoint for a method and a path. A path that exists, but not for the method, is
/// refused with the method it does take; saying "unknown endpoint" would send the caller
/// looking for the wrong problem.
pub fn route(method: &str, path: &str) -> (res: Route)
    ensures
        is_chat_path(path@) && method@ == "POST"@ ==> res is Chat,
        is_chat_path(path@) && method@ != "POST"@ ==> (res matches Route::Answer(r) && r@
            == reply::refusal("POST"@)),
        path@ == "/healthz"@ && method@ == "GET"@ ==> (res matches Route::Answer(r) && r@
            == reply::json_reply(200, encode_utf8(HEALTHZ_BODY@))),
        path@ == "/egress"@ && method@ == "GET"@ ==> res is Egress,
        path@ == "/"@ && method@ == "GET"@ ==> (res matches Route::Answer(r) && r@
            == reply::json_reply(200, encode_utf8(INDEX_BODY@))),
        is_service_path(path@) && method@ != "GET"@ ==> (res matches Route::Answer(r) && r@
            == reply::refusal("GET"@)),
        !is_chat_path(path@) && !is_service_path(path@) ==> (res matches Route::Answer(r) && r@
            == reply::failure(404, "unknown endpoint: "@ + path@)),
        (res is Chat) == (method@ == "POST"@ && (path@ == "/v1/chat/completions"@ || path@
            == "/chat/completions"@)),
        (res is Egress) == (method@ == "GET"@ && path@ == "/egress"@),
{
    proof {
        reveal_strlit("POST");
        reveal_strlit("GET");
        is_ascii_chars_encode_utf8("POST"@);
        is_ascii_chars_encode_utf8("GET"@);
        lemma_paths_differ();
    }
    let get = text::str_eq(method, "GET");
    if text::str_eq(path, "/healthz") {
        if get {
            let body = Bytes::from_static(HEALTHZ_BODY.as_bytes());
            Route::Answer(reply::json_response(200, body))
        } else {
            Route::Answer(reply::not_allowed("GET"))
        }
    } else if text::str_eq(path, "/egress") {
        if get {
            Route::Egress
        } else {
            Route::Answer(reply::not_allowed("GET"))
        }
    } else if text::str_eq(path, "/") {
        if get {
            let body = Bytes::from_static(INDEX_BODY.as_bytes());
            Route::Answer(reply::json_response(200, body))
        } else {
            Route::Answer(reply::not_allowed("GET"))
        }
    } else if text::str_eq(path, "/v1/chat/completions") || text::str_eq(
        path,
        "/chat/completions",
    ) {
        if text::str_eq(method, "POST") {
            Route::Chat
        } else {
            Route::Answer(reply::not_allowed("POST"))
        }
    } else {
        let mut message = "unknown endpoint: ".to_owned();
        message.push_str(path);
        Route::Answer(reply::fail(404, message.as_str()))
    }
}

/// The paths there are: two for chat completions, three for reading, and no path is both.
pub proof fn law_there_are_five_paths(path: Seq<char>)
    ensures
        is_chat_path(path) == (path == "/v1/chat/completions"@ || path == "/chat/completions"@),
        is_service_path(path) == (path == "/healthz"@ || path == "/egress"@ || path == "/"@),
        !(is_chat_path(path) && is_service_path(path)),
{
    lemma_paths_differ();
}

/// What the two service endpoints say.
pub proof fn law_service_bodies_are_fixed()
    ensures
        HEALTHZ_BODY@ == "{\"status\":\"ok\"}"@,
        INDEX_BODY@
            == "{\"name\":\"llm-relay\",\"version\":\"0.1.0\",\"endpoints\":[\"POST /v1/chat/completions\",\"GET /egress\",\"GET /healthz\"]}"@,
{
}

} // verus!
