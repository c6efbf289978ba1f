//! The answers that the relay composes itself: a status, headers and a body.

use bytes::Bytes;
use hyper::header::{HeaderMap, HeaderValue};
use vstd::prelude::*;
use vstd::utf8::*;

use crate::buffer;
use crate::error;
use crate::header;

verus! {

/// An answer to a client, complete but for being sent.
pub struct Reply {
    pub status: u16,
    pub headers: HeaderMap<HeaderValue>,
    pub body: Bytes,
}

/// What an answer says.
pub struct ReplyView {
    pub status: u16,
    pub headers: Map<Seq<char>, Seq<(Seq<u8>, bool)>>,
    pub body: Seq<u8>,
}

impl View for Reply {
    type V = ReplyView;

    open spec fn view(&self) -> ReplyView {
        ReplyView {
            status: self.status,
            headers: header::entries(self.headers),
            body: buffer::content(self.body),
        }
    }
}

/// The content type of everything that is not a stream.
pub const JSON_TYPE: &'static str = "application/json; charset=utf-8";

/// A text as the one value of a header.
pub open spec fn one(value: Seq<char>) -> Seq<(Seq<u8>, bool)> {
    seq![(encode_utf8(value), false)]
}

/// The headers of a JSON answer.
pub open spec fn json_headers() -> Map<Seq<char>, Seq<(Seq<u8>, bool)>> {
    header::no_entries().insert("content-type"@, one(JSON_TYPE@))
}

/// A JSON answer.
pub open spec fn json_reply(status: u16, body: Seq<u8>) -> ReplyView {
    ReplyView { status, headers: json_headers(), body }
}

/// The status that a terminal failure is answered with: 500 where the number is none.
pub open spec fn failure_status(status: u16) -> u16 {
    if 100 <= status <= 999 {
        status
    } else {
        500
    }
}

/// A terminal failure.
pub open spec fn failure(status: u16, message: Seq<char>) -> ReplyView {
    json_reply(failure_status(status), encode_utf8(error::envelope(status, message)))
}

/// The answer to a method that the path does not take.
pub open spec fn refusal(allow: Seq<char>) -> ReplyView {
    let plain = failure(405, "method not allowed; use "@ + allow);
    ReplyView { headers: plain.headers.insert("allow"@, one(allow)), ..plain }
}

/// The content type can be a header value, and the names can be header names.
proof fn lemma_literals()
    ensures
        header::all_visible(encode_utf8(JSON_TYPE@)),
        header::is_name("content-type"@),
        header::is_name("allow"@),
{
    reveal_strlit("application/json; charset=utf-8");
    is_ascii_chars_encode_utf8(JSON_TYPE@);
    reveal_strlit("content-type");
    reveal_strlit("allow");
}

/// The content type of everything that is not a stream.
pub fn json_ct() -> (res: HeaderValue)
    ensures
        header::value_view(res) == (encode_utf8(JSON_TYPE@), false),
{
    proof {
        lemma_literals();
    }
    header::value_from_static(JSON_TYPE)
}

/// The headers of a JSON answer.
pub fn json_only() -> (res: HeaderMap<HeaderValue>)
    ensures
        header::entries(res) == json_headers(),
{
    proof {
        lemma_literals();
    }
    let mut headers = header::new_headers();
    header::insert_header(&mut headers, "content-type", json_ct());
    headers
}

/// A JSON answer around a body.
pub fn json_response(status: u16, body: Bytes) -> (res: Reply)
    ensures
        res@ == json_reply(status, buffer::content(body)),
{
    Reply { status, headers: json_only(), body }
}

/// A terminal failure, in the OpenAI error envelope a strict client switches on.
pub fn fail(status: u16, message: &str) -> (res: Reply)
    ensures
        res@ == failure(status, message@),
{
    let code: u16 = if header::is_status(status) {
        status
    } else {
        500
    };
    json_response(code, buffer::bytes_from_vec(error::openai_error_body(status, message)))
}

/// 405 always names the methods that would have worked, as RFC 9110 requires.
pub fn not_allowed(allow: &'static str) -> (res: Reply)
    requires
        header::all_visible(encode_utf8(allow@)),
    ensures
        res@ == refusal(allow@),
{
    let mut message = "method not allowed; use ".to_owned();
    message.push_str(allow);
    let mut reply = fail(405, message.as_str());
    proof {
        lemma_literals();
    }
    header::insert_header(&mut reply.headers, "allow", header::value_from_static(allow));
    reply
}

// ---------------------------------------------------------------------------
// What holds of answers
// ---------------------------------------------------------------------------

/// A failure is answered under its own status, and under 500 where its number is none; as
/// JSON, with no other header; and with the envelope of its number and its message.
pub proof fn law_failures_are_answered_under_their_status(status: u16, message: Seq<char>)
    ensures
        100 <= status <= 999 ==> failure(status, message).status == status,
        !(100 <= status <= 999) ==> failure(status, message).status == 500,
        failure(status, message).body == encode_utf8(error::envelope(status, message)),
        failure(status, message).headers == header::no_entries().insert(
            "content-type"@,
            seq![(encode_utf8("application/json; charset=utf-8"@), false)],
        ),
{
}

/// A JSON answer has the status and the body that it was given, and its type.
pub proof fn law_answers_are_json(status: u16, body: Seq<u8>)
    ensures
        json_reply(status, body).status == status,
        json_reply(status, body).body == body,
        json_reply(status, body).headers == header::no_entries().insert(
            "content-type"@,
            seq![(encode_utf8("application/json; charset=utf-8"@), false)],
        ),
{
}

/// A refused method is answered with 405, the methods that would have worked, and a
/// message that names them.
pub proof fn law_refusals_name_what_works(allow: Seq<char>)
    ensures
        refusal(allow).status == 405,
        refusal(allow).headers == header::no_entries().insert(
            "content-type"@,
            seq![(encode_utf8("application/json; charset=utf-8"@), false)],
        ).insert("allow"@, seq![(encode_utf8(allow), false)]),
        refusal(allow).body == encode_utf8(
            error::envelope(405, "method not allowed; use "@ + allow),
        ),
{
}

/// An answer is seen as it is.
pub proof fn law_answers_are_seen_as_they_are(reply: Reply)
    ensures
        reply@.status == reply.status,
        reply@.headers == header::entries(reply.headers),
        reply@.body == buffer::content(reply.body),
{
}

} // verus!
