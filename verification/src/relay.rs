//! The relay to the upstream chat-completions endpoint: what goes out, how an answer is
//! classified, when it is tried again, and what the client gets. The relay does not
//! rewrite wire content in either direction.

use bytes::Bytes;
use hyper::header::{HeaderMap, HeaderValue};
use vstd::prelude::*;
use vstd::utf8::*;

use crate::buffer;
use crate::config::Config;
use crate::convert;
use crate::error;
use crate::header;
use crate::identity;
use crate::identity::{IdClock, H_CLIENT, H_PROJECT, H_REQUEST, H_SESSION};
use crate::reply;
use crate::reply::Reply;
use crate::request::{Method, Outbound};
use crate::text;

verus! {

/// The pause before the first retry; each further one is longer by as much.
pub const RETRY_DELAY_MS: u64 = 750;

/// How long a client that was refused for its rate is asked to wait.
pub const RETRY_AFTER_429_SECS: &'static str = "30";

/// An upstream error page is read only to be quoted into an envelope, and the message is
/// truncated anyway, so it is never worth buffering more than this.
pub const MAX_ERROR_BODY: usize = 65_536;

// ---------------------------------------------------------------------------
// The caller's headers
// ---------------------------------------------------------------------------

/// The header names a caller may still own: the vendor identity surface only.
pub open spec fn is_caller_name(name: Seq<char>) -> bool {
    ||| name == "user-agent"@
    ||| name == "accept"@
    ||| name == H_CLIENT@
    ||| name == H_PROJECT@
    ||| name == H_SESSION@
    ||| name == H_REQUEST@
}

/// The outbound name for one whitelisted name.
pub fn caller_header_name(name: &str) -> (res: Option<&'static str>)
    ensures
        is_caller_name(name@) ==> (res matches Some(found) && found@ == name@),
        !is_caller_name(name@) ==> res is None,
{
    if text::str_eq(name, "user-agent") {
        Some("user-agent")
    } else if text::str_eq(name, "accept") {
        Some("accept")
    } else if text::str_eq(name, H_CLIENT) {
        Some(H_CLIENT)
    } else if text::str_eq(name, H_PROJECT) {
        Some(H_PROJECT)
    } else if text::str_eq(name, H_SESSION) {
        Some(H_SESSION)
    } else if text::str_eq(name, H_REQUEST) {
        Some(H_REQUEST)
    } else {
        None
    }
}

/// Whether a caller may own a header. Received names are in lower case already, so this
/// compares directly.
pub fn is_caller_header(name: &str) -> (res: bool)
    ensures
        res == is_caller_name(name@),
{
    text::str_eq(name, "user-agent") || text::str_eq(name, "accept") || text::str_eq(name, H_CLIENT)
        || text::str_eq(name, H_PROJECT) || text::str_eq(name, H_SESSION) || text::str_eq(
        name,
        H_REQUEST,
    )
}

/// The texts among header values: those that are visible ASCII, in order.
pub open spec fn visible_texts(values: Seq<(Seq<u8>, bool)>) -> Seq<Seq<char>>
    decreases values.len(),
{
    if values.len() == 0 {
        seq![]
    } else {
        let front = visible_texts(values.drop_last());
        if header::all_visible(values.last().0) {
            front.push(decode_utf8(values.last().0))
        } else {
            front
        }
    }
}

/// The values that stand under `name` in a list of headers, in order.
pub open spec fn texts_under(list: Seq<(Seq<char>, Seq<char>)>, name: Seq<char>) -> Seq<Seq<char>>
    decreases list.len(),
{
    if list.len() == 0 {
        seq![]
    } else {
        let front = texts_under(list.drop_last(), name);
        if list.last().0 == name {
            front.push(list.last().1)
        } else {
            front
        }
    }
}

/// The headers of a request that its caller may own, with a value that is text. Under
/// each name the values stay in order; in which order the names come is left open.
pub fn caller_headers(headers: &HeaderMap<HeaderValue>) -> (res: Vec<(String, String)>)
    ensures
        forall|name: Seq<char>| #[trigger]
            texts_under(identity::pairs(res@), name) == (if is_caller_name(name) {
                visible_texts(header::held(header::entries(*headers), name))
            } else {
                seq![]
            }),
{
    let list = header::list_headers(headers);
    let mut out: Vec<(String, String)> = Vec::new();
    let mut i: usize = 0;
    proof {
        assert(identity::pairs(out@) =~= Seq::empty());
        assert(list@.take(0) =~= Seq::empty());
    }
    while i < list.len()
        invariant
            i <= list@.len(),
            forall|name: Seq<char>| #[trigger]
                texts_under(identity::pairs(out@), name) == (if is_caller_name(name) {
                    visible_texts(header::values_under(list@.take(i as int), name))
                } else {
                    seq![]
                }),
        decreases list@.len() - i,
    {
        let ghost before = out@;
        let ghost seen = list@.take(i as int);
        let ghost more = list@.take(i + 1);
        let name = &list[i].0;
        let value = &list[i].1;
        proof {
            assert(more.drop_last() =~= seen);
            assert(more.last() == list@[i as int]);
        }
        if is_caller_header(name.as_str()) {
            match header::value_to_str(value) {
                Some(shown) => {
                    let pair = (name.clone(), shown.to_owned());
                    proof {
                        encode_utf8_decode_utf8(shown@);
                        let after = before.push(pair);
                        assert(identity::pairs(after).drop_last() =~= identity::pairs(before));
                        assert(identity::pairs(after).last() == (pair.0@, pair.1@));
                    }
                    out.push(pair);
                },
                None => {},
            }
        }
        proof {
            assert forall|n: Seq<char>| #[trigger]
                texts_under(identity::pairs(out@), n) == (if is_caller_name(n) {
                    visible_texts(header::values_under(more, n))
                } else {
                    seq![]
                }) by {
                let old_values = header::values_under(seen, n);
                let new_values = header::values_under(more, n);
                assert(texts_under(identity::pairs(before), n) == (if is_caller_name(n) {
                    visible_texts(old_values)
                } else {
                    seq![]
                }));
                if name@ == n {
                    assert(new_values == old_values.push(header::value_view(*value)));
                    assert(new_values.drop_last() =~= old_values);
                }
            }
        }
        i += 1;
    }
    assert(list@.take(list@.len() as int) =~= list@);
    out
}

// ---------------------------------------------------------------------------
// The outgoing request
// ---------------------------------------------------------------------------

/// The model id that a request body asks for; empty where it cannot be read.
pub open spec fn model_of(body: Seq<u8>) -> Seq<char> {
    match convert::top_level_text(body, encode_utf8("model"@)) {
        Some(model) => model,
        None => seq![],
    }
}

/// The model id the client asked for, used to label a truncation frame. Read with the
/// byte scanner rather than a parse: the body is the client's whole conversation, and
/// deserializing all of it to look at one string would cost time and allocation
/// proportional to the transcript. An unreadable body yields an empty id rather than
/// refusing the request: the upstream is the one that gets to reject a malformed request.
pub fn client_model(body: &[u8]) -> (res: String)
    ensures
        res@ == model_of(body@),
{
    match convert::top_level_str(body, "model".as_bytes()) {
        Some(model) => model.to_owned(),
        None => String::new(),
    }
}

/// The headers of a list that go out under a whitelisted name. A value that cannot stand
/// in a header is left out; of several values under one name the last one stays.
pub open spec fn listed_entries(list: Seq<(Seq<char>, Seq<char>)>) -> Map<
    Seq<char>,
    Seq<(Seq<u8>, bool)>,
>
    decreases list.len(),
{
    if list.len() == 0 {
        header::no_entries()
    } else {
        let front = listed_entries(list.drop_last());
        let (name, value) = list.last();
        if is_caller_name(name) && header::is_value(encode_utf8(value)) {
            front.insert(name, reply::one(value))
        } else {
            front
        }
    }
}

/// The headers of a request to upstream: those listed, the credential, and the type of
/// the body.
pub open spec fn request_entries(
    list: Seq<(Seq<char>, Seq<char>)>,
    authorization: (Seq<u8>, bool),
) -> Map<Seq<char>, Seq<(Seq<u8>, bool)>> {
    listed_entries(list).insert("authorization"@, seq![authorization]).insert(
        "content-type"@,
        reply::one("application/json"@),
    )
}

/// The request that carries a chat completion upstream.
pub open spec fn upstream_request(
    cfg: crate::config::ConfigView,
    list: Seq<(Seq<char>, Seq<char>)>,
    body: Seq<u8>,
) -> crate::request::OutboundView {
    crate::request::OutboundView {
        method: Method::Post,
        uri: cfg.upstream.text,
        headers: request_entries(list, cfg.authorization),
        body,
    }
}

/// The six names a caller may own.
pub open spec fn caller_names() -> Set<Seq<char>> {
    set!["user-agent"@, "accept"@, H_CLIENT@, H_PROJECT@, H_SESSION@, H_REQUEST@]
}

/// Few headers are ever listed.
proof fn lemma_listed_few(list: Seq<(Seq<char>, Seq<char>)>)
    ensures
        listed_entries(list).dom().finite(),
        listed_entries(list).dom().subset_of(caller_names()),
        listed_entries(list).len() <= 6,
    decreases list.len(),
{
    if list.len() > 0 {
        lemma_listed_few(list.drop_last());
    }
    vstd::set_lib::lemma_len_subset(listed_entries(list).dom(), caller_names());
}

/// The whitelisted names can be header names, and the literals header values.
proof fn lemma_literals()
    ensures
        forall|name: Seq<char>| is_caller_name(name) ==> #[trigger] header::is_name(name),
        header::is_name("authorization"@),
        header::is_name("content-type"@),
        header::all_visible(encode_utf8("application/json"@)),
{
    reveal_strlit("user-agent");
    reveal_strlit("accept");
    reveal_strlit("x-opencode-client");
    reveal_strlit("x-opencode-project");
    reveal_strlit("x-opencode-session");
    reveal_strlit("x-opencode-request");
    reveal_strlit("authorization");
    reveal_strlit("content-type");
    reveal_strlit("application/json");
    is_ascii_chars_encode_utf8("application/json"@);
}

/// Build the request that carries a chat completion upstream. A value that will not go
/// in a header is skipped rather than failing the whole request.
pub fn build_request(cfg: &Config, headers: &[(String, String)], body: Bytes) -> (res: Outbound)
    ensures
        res@ == upstream_request(cfg@, identity::pairs(headers@), buffer::content(body)),
        res.method == Method::Post,
        res.uri@ == cfg.upstream.text@,
        buffer::content(res.body) == buffer::content(body),
        header::held(header::entries(res.headers), "authorization"@) == seq![
            header::value_view(cfg.authorization),
        ],
{
    let mut out = header::new_headers();
    let ghost list = identity::pairs(headers@);
    let mut i: usize = 0;
    assert(list.take(0) =~= Seq::empty());
    while i < headers.len()
        invariant
            i <= headers@.len(),
            list == identity::pairs(headers@),
            header::entries(out) == listed_entries(list.take(i as int)),
        decreases headers@.len() - i,
    {
        proof {
            assert(list.take(i + 1).drop_last() =~= list.take(i as int));
            assert(list.take(i + 1).last() == (headers@[i as int].0@, headers@[i as int].1@));
            lemma_listed_few(list.take(i as int));
            lemma_literals();
        }
        match caller_header_name(headers[i].0.as_str()) {
            Some(name) => match header::value_from_str(headers[i].1.as_str()) {
                Some(value) => {
                    header::insert_header(&mut out, name, value);
                },
                None => {},
            },
            None => {},
        }
        i += 1;
    }
    proof {
        assert(list.take(list.len() as int) =~= list);
        lemma_listed_few(list);
        lemma_literals();
    }
    header::insert_header(&mut out, "authorization", cfg.authorization.clone());
    header::insert_header(&mut out, "content-type", header::value_from_static("application/json"));
    proof {
        lemma_relay_names();
    }
    Outbound { method: Method::Post, uri: cfg.upstream.text.clone(), headers: out, body }
}

/// The request that opens the upstream connection before any request needs it.
pub fn prewarm_request(cfg: &Config) -> (res: Outbound)
    ensures
        res@ == (crate::request::OutboundView {
            method: Method::Get,
            uri: cfg@.upstream.text,
            headers: header::no_entries().insert("authorization"@, seq![cfg@.authorization]),
            body: seq![],
        }),
{
    proof {
        lemma_literals();
    }
    let mut headers = header::new_headers();
    header::insert_header(&mut headers, "authorization", cfg.authorization.clone());
    Outbound { method: Method::Get, uri: cfg.upstream.text.clone(), headers, body: Bytes::new() }
}

// ---------------------------------------------------------------------------
// The upstream answer
// ---------------------------------------------------------------------------

/// What the head of an upstream answer says about its body.
#[derive(Clone, Copy, Debug, PartialEq, Eq, Structural)]
pub enum Class {
    /// An error page, to be read.
    Error,
    /// A stream of events, to be relayed frame by frame.
    Stream,
    /// Anything else, to be forwarded without being collected.
    Body,
}

/// Whether `needle` stands somewhere in `hay`.
pub open spec fn holds(hay: Seq<u8>, needle: Seq<u8>) -> bool {
    exists|i: int| text::occurs_at(hay, needle, i)
}

/// Whether the content type is text that names an event stream.
pub open spec fn streams(values: Seq<(Seq<u8>, bool)>) -> bool {
    values.len() > 0 && header::all_visible(values[0].0) && holds(
        values[0].0,
        encode_utf8("event-stream"@),
    )
}

/// How an upstream answer is classified, from its status and its content types.
pub open spec fn class_of(status: u16, content_types: Seq<(Seq<u8>, bool)>) -> Class {
    if status >= 400 {
        Class::Error
    } else if streams(content_types) {
        Class::Stream
    } else {
        Class::Body
    }
}

/// Classify an upstream answer for the relay path.
pub fn classify(status: u16, headers: &HeaderMap<HeaderValue>) -> (res: Class)
    ensures
        (res is Error) == (status >= 400),
        res == class_of(status, header::held(header::entries(*headers), "content-type"@)),
{
    if status >= 400 {
        return Class::Error;
    }
    proof {
        lemma_literals();
    }
    match header::first_header(headers, "content-type") {
        Some(value) => match header::value_to_str(value) {
            Some(shown) => {
                match memchr::memmem::find(shown.as_bytes(), "event-stream".as_bytes()) {
                    Some(_) => Class::Stream,
                    None => Class::Body,
                }
            },
            None => Class::Body,
        },
        None => Class::Body,
    }
}

/// The upstream answer: streaming bodies stay streams; everything else is forwarded
/// without being collected.
#[derive(Clone, Copy, Debug, PartialEq, Eq, Structural)]
pub enum Upstream {
    Stream,
    Body { status: u16 },
}

/// The head of an answer whose body comes from upstream.
pub struct ReplyHead {
    pub status: u16,
    pub headers: HeaderMap<HeaderValue>,
}

/// The head of an answer, in view.
pub struct HeadView {
    pub status: u16,
    pub headers: Map<Seq<char>, Seq<(Seq<u8>, bool)>>,
}

impl View for ReplyHead {
    type V = HeadView;

    open spec fn view(&self) -> HeadView {
        HeadView { status: self.status, headers: header::entries(self.headers) }
    }
}

/// The headers of a relayed event stream. Reverse proxies that buffer by default would
/// hold frames until the stream ends, which is the one thing a token stream cannot
/// survive.
pub open spec fn stream_headers() -> Map<Seq<char>, Seq<(Seq<u8>, bool)>> {
    header::no_entries().insert("content-type"@, reply::one("text/event-stream; charset=utf-8"@)).insert(
        "cache-control"@,
        reply::one("no-cache"@),
    ).insert("x-accel-buffering"@, reply::one("no"@))
}

/// The head under which an upstream answer is relayed.
pub open spec fn relayed_head(up: Upstream) -> HeadView {
    match up {
        Upstream::Body { status } => HeadView {
            status: if 100 <= status <= 999 {
                status
            } else {
                200
            },
            headers: reply::json_headers(),
        },
        Upstream::Stream => HeadView { status: 200, headers: stream_headers() },
    }
}

/// The head under which an upstream answer is relayed, in the form it arrived. The
/// upstream honors the request's `stream` flag, so that form is already the one the
/// client asked for and no shape conversion is needed in either direction.
pub fn serve(up: Upstream) -> (res: ReplyHead)
    ensures
        res@ == relayed_head(up),
        up matches Upstream::Body { status } ==> (100 <= status <= 999 ==> res.status == status),
        up is Stream ==> res.status == 200,
{
    match up {
        Upstream::Body { status } => {
            let code: u16 = if header::is_status(status) {
                status
            } else {
                200
            };
            ReplyHead { status: code, headers: reply::json_only() }
        },
        Upstream::Stream => relay_sse(),
    }
}

/// The head of a relayed event stream.
fn relay_sse() -> (res: ReplyHead)
    ensures
        res@ == relayed_head(Upstream::Stream),
{
    proof {
        reveal_strlit("content-type");
        reveal_strlit("cache-control");
        reveal_strlit("x-accel-buffering");
        reveal_strlit("text/event-stream; charset=utf-8");
        reveal_strlit("no-cache");
        reveal_strlit("no");
        is_ascii_chars_encode_utf8("text/event-stream; charset=utf-8"@);
        is_ascii_chars_encode_utf8("no-cache"@);
        is_ascii_chars_encode_utf8("no"@);
    }
    let mut headers = header::new_headers();
    header::insert_header(
        &mut headers,
        "content-type",
        header::value_from_static("text/event-stream; charset=utf-8"),
    );
    header::insert_header(&mut headers, "cache-control", header::value_from_static("no-cache"));
    header::insert_header(&mut headers, "x-accel-buffering", header::value_from_static("no"));
    ReplyHead { status: 200, headers }
}

// ---------------------------------------------------------------------------
// Errors
// ---------------------------------------------------------------------------

/// One relayed error outcome: either an upstream status and its raw body, or a transport
/// failure with no upstream answer.
pub enum ErrorEnvelope {
    Status { status: u16, body: Bytes },
    Transport(String),
}

/// One relayed error outcome, in view.
pub enum ErrorView {
    Status { status: u16, body: Seq<u8> },
    Transport(Seq<char>),
}

impl View for ErrorEnvelope {
    type V = ErrorView;

    open spec fn view(&self) -> ErrorView {
        match self {
            ErrorEnvelope::Status { status, body } => ErrorView::Status {
                status: *status,
                body: buffer::content(*body),
            },
            ErrorEnvelope::Transport(cause) => ErrorView::Transport(cause@),
        }
    }
}

/// Whether trying again may help: upstream did not answer, or said so.
pub open spec fn may_retry(e: ErrorView) -> bool {
    match e {
        ErrorView::Transport(_) => true,
        ErrorView::Status { status, .. } => status == 408 || status == 429 || 500 <= status <= 599,
    }
}

impl ErrorEnvelope {
    /// Whether trying again may help.
    pub fn retryable(&self) -> (res: bool)
        ensures
            res == may_retry(self@),
            self is Transport ==> res,
            self matches ErrorEnvelope::Status { status, .. } ==> res == (*status == 408 || *status
                == 429 || 500 <= *status < 600),
    {
        match self {
            ErrorEnvelope::Transport(_) => true,
            ErrorEnvelope::Status { status, .. } => *status == 408 || *status == 429 || (500
                <= *status && *status <= 599),
        }
    }
}

/// What the client is answered when upstream could not serve it.
pub open spec fn error_reply(e: ErrorView) -> reply::ReplyView {
    match e {
        ErrorView::Status { status, body } => {
            let plain = reply::json_reply(
                if 100 <= status <= 999 {
                    status
                } else {
                    502
                },
                error::normalized(body, status),
            );
            if status == 429 {
                reply::ReplyView {
                    headers: plain.headers.insert(
                        "retry-after"@,
                        reply::one(RETRY_AFTER_429_SECS@),
                    ),
                    ..plain
                }
            } else {
                plain
            }
        },
        ErrorView::Transport(cause) => reply::failure(502, "upstream request failed: "@ + cause),
    }
}

/// Answer for an upstream that could not serve.
pub fn serve_error(e: ErrorEnvelope) -> (res: Reply)
    ensures
        res@ == error_reply(e@),
{
    match e {
        ErrorEnvelope::Status { status, body } => {
            let normalized = error::normalize_error_body(buffer::bytes_slice(&body), status);
            let code: u16 = if header::is_status(status) {
                status
            } else {
                502
            };
            let mut reply = reply::json_response(code, buffer::bytes_from_vec(normalized));
            if status == 429 {
                proof {
                    reveal_strlit("retry-after");
                    reveal_strlit("30");
                    is_ascii_chars_encode_utf8("30"@);
                }
                header::insert_header(
                    &mut reply.headers,
                    "retry-after",
                    header::value_from_static(RETRY_AFTER_429_SECS),
                );
            }
            reply
        },
        ErrorEnvelope::Transport(cause) => {
            let mut message = "upstream request failed: ".to_owned();
            message.push_str(cause.as_str());
            reply::fail(502, message.as_str())
        },
    }
}

/// The body of an upstream error page, from what was read of it: one that could not be
/// read is taken for an empty one, so that the status still reaches the client.
pub fn error_body(read: Option<Bytes>) -> (res: Bytes)
    ensures
        buffer::content(res) == (match read {
            Some(body) => buffer::content(body),
            None => seq![],
        }),
{
    match read {
        Some(body) => body,
        None => Bytes::new(),
    }
}

/// Why a request body was not read.
pub enum BodyFailure {
    /// It is over the cap.
    TooLarge,
    /// It broke mid-read, for this reason.
    Broken(String),
}

/// What the client is answered when its request body was not read.
pub open spec fn body_refusal(failure: BodyFailure, max_body: usize) -> reply::ReplyView {
    match failure {
        BodyFailure::TooLarge => reply::failure(
            413,
            "request body exceeds the "@ + text::decimal(max_body as nat) + " byte limit"@,
        ),
        BodyFailure::Broken(cause) => reply::failure(
            400,
            "could not read request body: "@ + cause@,
        ),
    }
}

/// A request body the relay refused to read: over the cap, or broken mid-read.
pub fn body_error(failure: BodyFailure, max_body: usize) -> (res: Reply)
    ensures
        res@ == body_refusal(failure, max_body),
{
    match failure {
        BodyFailure::TooLarge => {
            let mut message = "request body exceeds the ".to_owned();
            text::push_decimal(&mut message, max_body as u64);
            message.push_str(" byte limit");
            reply::fail(413, message.as_str())
        },
        BodyFailure::Broken(cause) => {
            let mut message = "could not read request body: ".to_owned();
            message.push_str(cause.as_str());
            reply::fail(400, message.as_str())
        },
    }
}

/// Answer for a request to upstream that could not be put together.
pub fn build_error(cause: &str) -> (res: Reply)
    ensures
        res@ == reply::failure(500, "could not build upstream request: "@ + cause@),
{
    let mut message = "could not build upstream request: ".to_owned();
    message.push_str(cause);
    reply::fail(500, message.as_str())
}

// ---------------------------------------------------------------------------
// One chat completion
// ---------------------------------------------------------------------------

/// The first text that a header collection holds under a name.
pub open spec fn sent(
    entries: Map<Seq<char>, Seq<(Seq<u8>, bool)>>,
    name: Seq<char>,
) -> Option<Seq<char>> {
    let texts = visible_texts(header::held(entries, name));
    if texts.len() > 0 {
        Some(texts[0])
    } else {
        None
    }
}

/// What a request holds of the six headers that its caller may own.
pub open spec fn caller_in(entries: Map<Seq<char>, Seq<(Seq<u8>, bool)>>) -> identity::Caller {
    identity::Caller {
        agent: sent(entries, "user-agent"@),
        accept: sent(entries, "accept"@),
        client: sent(entries, H_CLIENT@),
        project: sent(entries, H_PROJECT@),
        session: sent(entries, H_SESSION@),
        request: sent(entries, H_REQUEST@),
    }
}

/// The texts under a name, from the front.
proof fn lemma_texts_under_front(list: Seq<(Seq<char>, Seq<char>)>, name: Seq<char>)
    requires
        list.len() > 0,
    ensures
        texts_under(list, name) == (if list[0].0 == name {
            seq![list[0].1]
        } else {
            seq![]
        }) + texts_under(list.drop_first(), name),
    decreases list.len(),
{
    if list.len() == 1 {
        assert(list.drop_last() =~= Seq::empty());
        assert(list.drop_first() =~= Seq::empty());
    } else {
        lemma_texts_under_front(list.drop_last(), name);
        assert(list.drop_last().drop_first() =~= list.drop_first().drop_last());
    }
    assert(texts_under(list, name) =~= (if list[0].0 == name {
        seq![list[0].1]
    } else {
        seq![]
    }) + texts_under(list.drop_first(), name));
}

/// A name in lower case is its own lower case.
proof fn lemma_lower_name(name: Seq<char>)
    requires
        header::is_name(name),
    ensures
        text::lower(encode_utf8(name)) == encode_utf8(name),
{
    assert(is_ascii_chars(name));
    is_ascii_chars_encode_utf8(name);
    assert forall|i: int| 0 <= i < encode_utf8(name).len() implies text::lower(
        encode_utf8(name),
    )[i] == encode_utf8(name)[i] by {
        assert(encode_utf8(name)[i] == name[i] as u8);
    }
    assert(text::lower(encode_utf8(name)) =~= encode_utf8(name));
}

/// Among headers a caller may own, the first value under a name is the first of its texts.
proof fn lemma_first_value(list: Seq<(Seq<char>, Seq<char>)>, name: Seq<char>)
    requires
        is_caller_name(name),
        forall|n: Seq<char>| !is_caller_name(n) ==> #[trigger] texts_under(list, n).len() == 0,
    ensures
        identity::first_value(list, name) == (if texts_under(list, name).len() > 0 {
            Some(texts_under(list, name)[0])
        } else {
            None
        }),
    decreases list.len(),
{
    if list.len() > 0 {
        let rest = list.drop_first();
        let head = list[0].0;
        lemma_texts_under_front(list, head);
        assert(texts_under(list, head).len() > 0);
        lemma_texts_under_front(list, name);
        lemma_literals();
        lemma_lower_name(head);
        lemma_lower_name(name);
        text::lemma_encode_injective(head, name);
        if head != name {
            assert forall|n: Seq<char>| !is_caller_name(n) implies #[trigger] texts_under(
                rest,
                n,
            ).len() == 0 by {
                lemma_texts_under_front(list, n);
                assert(texts_under(list, n).len() == 0);
            }
            lemma_first_value(rest, name);
            assert(texts_under(list, name) =~= texts_under(rest, name));
        }
    }
}

/// What is picked out of a request is what the request holds.
proof fn lemma_caller(
    list: Seq<(Seq<char>, Seq<char>)>,
    entries: Map<Seq<char>, Seq<(Seq<u8>, bool)>>,
)
    requires
        forall|name: Seq<char>| #[trigger]
            texts_under(list, name) == (if is_caller_name(name) {
                visible_texts(header::held(entries, name))
            } else {
                seq![]
            }),
    ensures
        identity::caller_of(list) == caller_in(entries),
{
    lemma_first_value(list, "user-agent"@);
    lemma_first_value(list, "accept"@);
    lemma_first_value(list, H_CLIENT@);
    lemma_first_value(list, H_PROJECT@);
    lemma_first_value(list, H_SESSION@);
    lemma_first_value(list, H_REQUEST@);
}

/// A chat completion on its way: what goes upstream, and how often it has been tried.
pub struct Chat {
    headers: Vec<(String, String)>,
    body: Bytes,
    model: String,
    attempt: u32,
    max_retries: u32,
}

/// A chat completion on its way, in view.
pub struct ChatView {
    pub headers: Seq<(Seq<char>, Seq<char>)>,
    pub body: Seq<u8>,
    pub model: Seq<char>,
    pub attempt: u32,
    pub max_retries: u32,
}

impl View for Chat {
    type V = ChatView;

    closed spec fn view(&self) -> ChatView {
        ChatView {
            headers: identity::pairs(self.headers@),
            body: buffer::content(self.body),
            model: self.model@,
            attempt: self.attempt,
            max_retries: self.max_retries,
        }
    }
}

/// What is to be done after an attempt.
pub enum ChatStep {
    /// Relay the upstream body under this head.
    Relay(ReplyHead),
    /// Wait so long, then send the request again.
    Retry { delay_ms: u64 },
    /// Send this answer.
    Answer(Reply),
}

/// What is to be done after an attempt, in view.
pub enum ChatStepView {
    Relay(HeadView),
    Retry { delay_ms: u64 },
    Answer(reply::ReplyView),
}

impl View for ChatStep {
    type V = ChatStepView;

    open spec fn view(&self) -> ChatStepView {
        match self {
            ChatStep::Relay(head) => ChatStepView::Relay(head@),
            ChatStep::Retry { delay_ms } => ChatStepView::Retry { delay_ms: *delay_ms },
            ChatStep::Answer(reply) => ChatStepView::Answer(reply@),
        }
    }
}

/// How an attempt ended, in view.
pub open spec fn ended(outcome: Result<Upstream, ErrorEnvelope>) -> Result<Upstream, ErrorView> {
    match outcome {
        Ok(up) => Ok(up),
        Err(e) => Err(e@),
    }
}

/// Whether there is another attempt after one that ended so.
pub open spec fn goes_on(attempt: u32, max_retries: u32, outcome: Result<Upstream, ErrorView>) -> bool {
    outcome matches Err(e) && may_retry(e) && attempt < max_retries
}

/// What is done after an attempt: a served request is relayed, a retryable failure is
/// tried again while there are retries left, and any other failure is answered.
pub open spec fn after_attempt(
    attempt: u32,
    max_retries: u32,
    outcome: Result<Upstream, ErrorView>,
) -> ChatStepView {
    match outcome {
        Ok(up) => ChatStepView::Relay(relayed_head(up)),
        Err(e) => if goes_on(attempt, max_retries, outcome) {
            ChatStepView::Retry { delay_ms: (RETRY_DELAY_MS * (attempt + 1)) as u64 }
        } else {
            ChatStepView::Answer(error_reply(e))
        },
    }
}

/// Whether a completion can begin: an ID is minted only for a body that was read and a
/// caller that sent none, and then the clock must have one left.
pub open spec fn can_begin(
    entries: Map<Seq<char>, Seq<(Seq<u8>, bool)>>,
    was_read: bool,
    clock: IdClock,
    now: u64,
) -> bool {
    !was_read || caller_in(entries).request is Some || clock.can_tick(now)
}

impl Chat {
    /// Whether a completion can begin, for those who cannot prove it.
    pub fn may_begin(
        headers: &HeaderMap<HeaderValue>,
        body: &Result<Bytes, BodyFailure>,
        clock: &IdClock,
        now_millis: u64,
    ) -> (res: bool)
        ensures
            res == can_begin(header::entries(*headers), body is Ok, *clock, now_millis),
    {
        if body.is_err() || clock.can_mint(now_millis) {
            return true;
        }
        let incoming = caller_headers(headers);
        proof {
            lemma_caller(identity::pairs(incoming@), header::entries(*headers));
        }
        identity::borrowed(Some(incoming.as_slice()), H_REQUEST).is_some()
    }

    /// Take in a request: pick out the caller's headers, refuse a body that was not read,
    /// and settle what goes upstream. The body is kept because a retry has to be able to
    /// send it again.
    pub fn begin(
        cfg: &Config,
        headers: &HeaderMap<HeaderValue>,
        body: Result<Bytes, BodyFailure>,
        clock: &mut IdClock,
        fallback_session: &str,
        now_millis: u64,
    ) -> (res: Result<Chat, Reply>)
        requires
            can_begin(header::entries(*headers), body is Ok, *old(clock), now_millis),
        ensures
            match body {
                Ok(bytes) => res matches Ok(chat) && chat@ == (ChatView {
                    headers: identity::upstream_pairs(
                        caller_in(header::entries(*headers)),
                        fallback_session@,
                        identity::request_id(old(clock).last, now_millis),
                    ),
                    body: buffer::content(bytes),
                    model: model_of(buffer::content(bytes)),
                    attempt: 0,
                    max_retries: cfg.max_retries,
                }),
                Err(failure) => res matches Err(refusal) && refusal@ == body_refusal(
                    failure,
                    cfg.max_body,
                ),
            },
            final(clock).last == (if body is Ok && caller_in(
                header::entries(*headers),
            ).request is None {
                identity::tick(old(clock).last, now_millis)
            } else {
                old(clock).last
            }),
    {
        let incoming = caller_headers(headers);
        let body = match body {
            Ok(bytes) => bytes,
            Err(failure) => {
                return Err(body_error(failure, cfg.max_body));
            },
        };
        let model = client_model(buffer::bytes_slice(&body));
        proof {
            lemma_caller(identity::pairs(incoming@), header::entries(*headers));
        }
        let list = identity::upstream_headers(
            clock,
            Some(incoming.as_slice()),
            fallback_session,
            now_millis,
        );
        Ok(Chat { headers: list, body, model, attempt: 0, max_retries: cfg.max_retries })
    }

    /// The request to send for this attempt.
    pub fn request(&self, cfg: &Config) -> (res: Outbound)
        ensures
            res@ == upstream_request(cfg@, self@.headers, self@.body),
            res.method == Method::Post,
            res.uri@ == cfg.upstream.text@,
            buffer::content(res.body) == self@.body,
    {
        build_request(cfg, self.headers.as_slice(), self.body.clone())
    }

    /// The model that a truncation frame is labelled with.
    pub fn model(&self) -> (res: &str)
        ensures
            res@ == self@.model,
    {
        self.model.as_str()
    }

    /// What to do now that an attempt has ended.
    pub fn on_outcome(&mut self, outcome: Result<Upstream, ErrorEnvelope>) -> (res: ChatStep)
        ensures
            res@ == after_attempt(old(self)@.attempt, old(self)@.max_retries, ended(outcome)),
            final(self)@ == (ChatView {
                attempt: if goes_on(old(self)@.attempt, old(self)@.max_retries, ended(outcome)) {
                    (old(self)@.attempt + 1) as u32
                } else {
                    old(self)@.attempt
                },
                ..old(self)@
            }),
    {
        match outcome {
            Ok(up) => ChatStep::Relay(serve(up)),
            Err(e) => {
                if e.retryable() && self.attempt < self.max_retries {
                    self.attempt = self.attempt + 1;
                    ChatStep::Retry { delay_ms: RETRY_DELAY_MS * self.attempt as u64 }
                } else {
                    ChatStep::Answer(serve_error(e))
                }
            },
        }
    }
}

// ---------------------------------------------------------------------------
// What holds of every completion
// ---------------------------------------------------------------------------

/// How many requests a completion sends from an attempt on, where attempt `k` ends with
/// `outcomes(k)`.
pub open spec fn sends(
    attempt: u32,
    max_retries: u32,
    outcomes: spec_fn(int) -> Result<Upstream, ErrorView>,
) -> int
    decreases max_retries - attempt,
{
    if goes_on(attempt, max_retries, outcomes(attempt as int)) {
        1 + sends((attempt + 1) as u32, max_retries, outcomes)
    } else {
        1
    }
}

/// From any attempt on: as many requests as attempts are left at most, another one only
/// after a failure that may be retried.
proof fn lemma_sends(
    attempt: u32,
    max_retries: u32,
    outcomes: spec_fn(int) -> Result<Upstream, ErrorView>,
)
    requires
        attempt <= max_retries,
    ensures
        1 <= sends(attempt, max_retries, outcomes) <= max_retries - attempt + 1,
        forall|k: int|
            attempt <= k < attempt + sends(attempt, max_retries, outcomes) - 1 ==> (
            #[trigger] outcomes(k) matches Err(e) && may_retry(e)),
        !goes_on(
            (attempt + sends(attempt, max_retries, outcomes) - 1) as u32,
            max_retries,
            outcomes(attempt + sends(attempt, max_retries, outcomes) - 1),
        ),
    decreases max_retries - attempt,
{
    if goes_on(attempt, max_retries, outcomes(attempt as int)) {
        lemma_sends((attempt + 1) as u32, max_retries, outcomes);
    }
}

/// A completion sends at least one request and at most one more than it has retries.
/// Before the last request every one ended in a failure that may be retried; after the
/// last one the client is answered, with the upstream body where it was served and with
/// that last failure where it was not.
pub proof fn law_retries_are_bounded(
    max_retries: u32,
    outcomes: spec_fn(int) -> Result<Upstream, ErrorView>,
)
    ensures
        1 <= sends(0, max_retries, outcomes) <= max_retries + 1,
        forall|k: int|
            0 <= k < sends(0, max_retries, outcomes) - 1 ==> {
                &&& (#[trigger] outcomes(k) matches Err(e) && may_retry(e))
                &&& after_attempt(k as u32, max_retries, outcomes(k)) == (ChatStepView::Retry {
                    delay_ms: (RETRY_DELAY_MS * (k + 1)) as u64,
                })
            },
        ({
            let last = sends(0, max_retries, outcomes) - 1;
            after_attempt(last as u32, max_retries, outcomes(last)) == (match outcomes(last) {
                Ok(up) => ChatStepView::Relay(relayed_head(up)),
                Err(e) => ChatStepView::Answer(error_reply(e)),
            })
        }),
{
    lemma_sends(0, max_retries, outcomes);
    assert forall|k: int| 0 <= k < sends(0, max_retries, outcomes) - 1 implies (
    #[trigger] outcomes(k) matches Err(e) && may_retry(e)) && after_attempt(
        k as u32,
        max_retries,
        outcomes(k),
    ) == (ChatStepView::Retry { delay_ms: (RETRY_DELAY_MS * (k + 1)) as u64 }) by {
        assert(goes_on(k as u32, max_retries, outcomes(k)));
    }
}

/// A request that upstream refused for good is not sent again.
pub proof fn law_refusals_are_final(
    attempt: u32,
    max_retries: u32,
    status: u16,
    body: Seq<u8>,
)
    requires
        400 <= status < 500,
        status != 408,
        status != 429,
    ensures
        after_attempt(attempt, max_retries, Err(ErrorView::Status { status, body }))
            == ChatStepView::Answer(error_reply(ErrorView::Status { status, body })),
{
}

/// The names that never come from a caller.
proof fn lemma_relay_names()
    ensures
        !is_caller_name("authorization"@),
        !is_caller_name("content-type"@),
        "authorization"@ != "content-type"@,
{
    reveal_strlit("user-agent");
    reveal_strlit("accept");
    reveal_strlit("x-opencode-client");
    reveal_strlit("x-opencode-project");
    reveal_strlit("x-opencode-session");
    reveal_strlit("x-opencode-request");
    reveal_strlit("authorization");
    reveal_strlit("content-type");
    assert("authorization"@.len() == 13 && "content-type"@.len() == 12);
    assert("user-agent"@.len() == 10 && "accept"@.len() == 6 && H_CLIENT@.len() == 17);
    assert(H_PROJECT@.len() == 18 && H_SESSION@.len() == 18 && H_REQUEST@.len() == 18);
}

/// Whatever a caller sends, the request upstream carries the relay's own credential and
/// the relay's own content type, once each, and besides them no header but the six of the
/// vendor's identity surface.
pub proof fn law_callers_own_only_their_headers(
    cfg: crate::config::ConfigView,
    list: Seq<(Seq<char>, Seq<char>)>,
    body: Seq<u8>,
    name: Seq<char>,
)
    ensures
        header::held(upstream_request(cfg, list, body).headers, "authorization"@) == seq![
            cfg.authorization,
        ],
        header::held(upstream_request(cfg, list, body).headers, "content-type"@) == reply::one(
            "application/json"@,
        ),
        upstream_request(cfg, list, body).headers.dom().contains(name) ==> name
            == "authorization"@ || name == "content-type"@ || is_caller_name(name),
{
    lemma_relay_names();
    lemma_listed_few(list);
}

/// What can be read as text can stand in a header.
proof fn lemma_sent_is_value(entries: Map<Seq<char>, Seq<(Seq<u8>, bool)>>, name: Seq<char>)
    ensures
        sent(entries, name) matches Some(value) ==> header::is_value(encode_utf8(value)),
{
    let values = header::held(entries, name);
    lemma_visible_texts(values);
}

/// The texts among header values can stand in headers again.
proof fn lemma_visible_texts(values: Seq<(Seq<u8>, bool)>)
    ensures
        forall|i: int|
            0 <= i < visible_texts(values).len() ==> header::is_value(
                encode_utf8(#[trigger] visible_texts(values)[i]),
            ),
    decreases values.len(),
{
    if values.len() > 0 {
        let front = visible_texts(values.drop_last());
        lemma_visible_texts(values.drop_last());
        let last = values.last().0;
        if header::all_visible(last) {
            lemma_visible_is_text(last);
            assert forall|i: int| 0 <= i < visible_texts(values).len() implies header::is_value(
                encode_utf8(#[trigger] visible_texts(values)[i]),
            ) by {
                if i < front.len() {
                    assert(visible_texts(values)[i] == front[i]);
                }
            }
        }
    }
}

/// Visible ASCII is the encoding of the text that it reads as.
proof fn lemma_visible_is_text(s: Seq<u8>)
    requires
        header::all_visible(s),
    ensures
        encode_utf8(decode_utf8(s)) == s,
{
    let t = Seq::new(s.len(), |i: int| s[i] as char);
    assert(is_ascii_chars(t));
    is_ascii_chars_encode_utf8(t);
    assert(encode_utf8(t) =~= s);
    encode_utf8_decode_utf8(t);
}

/// An ID can stand in a header wherever its prefix can; the IDs of requests and sessions
/// always can.
pub proof fn law_ids_are_header_values(prefix: Seq<char>, part: u64)
    ensures
        header::is_value(encode_utf8(prefix)) ==> header::is_value(
            encode_utf8(identity::id_text(prefix, part)),
        ),
        header::is_value(encode_utf8(identity::id_text("msg"@, part))),
        header::is_value(encode_utf8(identity::id_text("ses"@, part))),
{
    reveal_strlit("msg");
    reveal_strlit("ses");
    is_ascii_chars_encode_utf8("msg"@);
    is_ascii_chars_encode_utf8("ses"@);
    if header::is_value(encode_utf8(prefix)) {
        lemma_id_is_value(prefix, part);
    }
    lemma_id_is_value("msg"@, part);
    lemma_id_is_value("ses"@, part);
}

/// An ID can stand in a header where its prefix can.
proof fn lemma_id_is_value(prefix: Seq<char>, part: u64)
    requires
        header::is_value(encode_utf8(prefix)),
    ensures
        header::is_value(encode_utf8(identity::id_text(prefix, part))),
{
    let id = identity::id_text(prefix, part);
    let n = prefix.len() as int;
    let rest = id.skip(n);
    identity::law_ids_have_one_shape(prefix, part);
    assert(id =~= prefix + rest);
    assert forall|i: int| 0 <= i < rest.len() implies 0x20 <= #[trigger] (rest[i] as u32)
        < 0x7f by {
        assert(rest[i] == id[n + i]);
    }
    assert(is_ascii_chars(rest));
    is_ascii_chars_encode_utf8(rest);
    text::lemma_encode_concat(prefix, rest);
    let front = encode_utf8(prefix);
    let back = encode_utf8(rest);
    assert forall|i: int| 0 <= i < encode_utf8(id).len() implies header::is_value_byte(
        #[trigger] encode_utf8(id)[i],
    ) by {
        if i < front.len() {
            assert(encode_utf8(id)[i] == front[i]);
        } else {
            let k = i - front.len();
            assert(encode_utf8(id)[i] == back[k]);
            assert(back[k] == rest[k] as u8);
            assert(0x20 <= (rest[k] as u32) < 0x7f);
        }
    }
}

/// A minted ID and the fixed texts can stand in headers.
proof fn lemma_defaults_are_values(last: u64, now: u64)
    ensures
        header::is_value(encode_utf8(identity::request_id(last, now))),
        header::is_value(encode_utf8(identity::DEFAULT_UA@)),
        header::is_value(encode_utf8(identity::DEFAULT_ACCEPT@)),
        header::is_value(encode_utf8(identity::DEFAULT_CLIENT@)),
        header::is_value(encode_utf8(identity::DEFAULT_PROJECT@)),
{
    reveal_strlit("opencode/1.17.15 ai-sdk/provider-utils/4.0.23 runtime/bun/1.3.14");
    reveal_strlit("*/*");
    reveal_strlit("cli");
    reveal_strlit("global");
    is_ascii_chars_encode_utf8(identity::DEFAULT_UA@);
    is_ascii_chars_encode_utf8(identity::DEFAULT_ACCEPT@);
    is_ascii_chars_encode_utf8(identity::DEFAULT_CLIENT@);
    is_ascii_chars_encode_utf8(identity::DEFAULT_PROJECT@);
    law_ids_are_header_values(
        "msg"@,
        identity::ordered_part(identity::tick(last, now), false),
    );
}

/// The six names differ.
proof fn lemma_caller_names_differ()
    ensures
        "user-agent"@.len() == 10,
        "accept"@.len() == 6,
        H_CLIENT@.len() == 17,
        H_PROJECT@.len() == 18,
        H_SESSION@.len() == 18,
        H_REQUEST@.len() == 18,
        H_PROJECT@[11] == 'p',
        H_SESSION@[11] == 's',
        H_REQUEST@[11] == 'r',
{
    reveal_strlit("user-agent");
    reveal_strlit("accept");
    reveal_strlit("x-opencode-client");
    reveal_strlit("x-opencode-project");
    reveal_strlit("x-opencode-session");
    reveal_strlit("x-opencode-request");
}

/// Whatever the caller sent, upstream sees the same eight headers every time, each with
/// one value: the six of the identity surface as they were chosen, the relay's
/// credential, and the type of the body.
pub proof fn law_requests_have_one_shape(
    cfg: crate::config::ConfigView,
    entries: Map<Seq<char>, Seq<(Seq<u8>, bool)>>,
    fallback_session: Seq<char>,
    last: u64,
    now: u64,
    body: Seq<u8>,
)
    requires
        header::is_value(encode_utf8(fallback_session)),
    ensures
        ({
            let list = identity::upstream_pairs(
                caller_in(entries),
                fallback_session,
                identity::request_id(last, now),
            );
            upstream_request(cfg, list, body).headers == header::no_entries().insert(
                "user-agent"@,
                reply::one(list[0].1),
            ).insert("accept"@, reply::one(list[1].1)).insert(
                H_CLIENT@,
                reply::one(list[2].1),
            ).insert(H_PROJECT@, reply::one(list[3].1)).insert(
                H_SESSION@,
                reply::one(list[4].1),
            ).insert(H_REQUEST@, reply::one(list[5].1)).insert(
                "authorization"@,
                seq![cfg.authorization],
            ).insert("content-type"@, reply::one("application/json"@))
        }),
        upstream_request(
            cfg,
            identity::upstream_pairs(
                caller_in(entries),
                fallback_session,
                identity::request_id(last, now),
            ),
            body,
        ).headers.len() == 8,
{
    let list = identity::upstream_pairs(
        caller_in(entries),
        fallback_session,
        identity::request_id(last, now),
    );
    lemma_defaults_are_values(last, now);
    lemma_sent_is_value(entries, "user-agent"@);
    lemma_sent_is_value(entries, "accept"@);
    lemma_sent_is_value(entries, H_CLIENT@);
    lemma_sent_is_value(entries, H_PROJECT@);
    lemma_sent_is_value(entries, H_SESSION@);
    lemma_sent_is_value(entries, H_REQUEST@);
    assert(list.drop_last() =~= list.take(5));
    assert(list.take(5).drop_last() =~= list.take(4));
    assert(list.take(4).drop_last() =~= list.take(3));
    assert(list.take(3).drop_last() =~= list.take(2));
    assert(list.take(2).drop_last() =~= list.take(1));
    assert(list.take(1).drop_last() =~= Seq::empty());
    assert(listed_entries(Seq::empty()) == header::no_entries());
    let one = header::no_entries().insert("user-agent"@, reply::one(list[0].1));
    let two = one.insert("accept"@, reply::one(list[1].1));
    let three = two.insert(H_CLIENT@, reply::one(list[2].1));
    let four = three.insert(H_PROJECT@, reply::one(list[3].1));
    let five = four.insert(H_SESSION@, reply::one(list[4].1));
    let six = five.insert(H_REQUEST@, reply::one(list[5].1));
    assert(listed_entries(list.take(1)) == one);
    assert(listed_entries(list.take(2)) == two);
    assert(listed_entries(list.take(3)) == three);
    assert(listed_entries(list.take(4)) == four);
    assert(listed_entries(list.take(5)) == five);
    assert(listed_entries(list) == six);
    lemma_caller_names_differ();
    lemma_relay_names();
    assert(one.dom().finite() && one.len() == 1);
    assert(two.dom().finite() && two.len() == 2);
    assert(three.dom().finite() && three.len() == 3);
    assert(four.dom().finite() && four.len() == 4);
    assert(five.dom().finite() && five.len() == 5);
    assert(six.dom().finite() && six.len() == 6);
}

/// The head of every answer has a status that HTTP knows, whatever upstream said.
pub proof fn law_statuses_are_valid(e: ErrorView, up: Upstream)
    ensures
        100 <= error_reply(e).status <= 999,
        100 <= relayed_head(up).status <= 999,
{
}

/// What the client gets for an upstream failure speaks the OpenAI error shape, whatever
/// upstream sent, and says when to come back exactly where upstream refused for the rate.
pub proof fn law_failures_speak_openai(e: ErrorView)
    ensures
        error::speaks_openai(error_reply(e).body),
        error_reply(e).headers.contains_key("retry-after"@) == (e matches ErrorView::Status {
            status: 429,
            ..
        }),
{
    match e {
        ErrorView::Status { status, body } => {
            error::law_normalized_speaks_openai(body, status, status);
        },
        ErrorView::Transport(cause) => {
            error::law_envelopes_speak_openai(502, "upstream request failed: "@ + cause);
        },
    }
    reveal_strlit("content-type");
    reveal_strlit("retry-after");
    assert("content-type"@.len() == 12 && "retry-after"@.len() == 11);
}

// ---------------------------------------------------------------------------
// What goes up and what comes back
// ---------------------------------------------------------------------------

/// A completion goes upstream as a POST to the configured endpoint, with the bytes of the
/// client's body, all of them and no others, under the relay's own credential.
pub proof fn law_requests_carry_the_body(
    cfg: crate::config::ConfigView,
    list: Seq<(Seq<char>, Seq<char>)>,
    body: Seq<u8>,
)
    ensures
        upstream_request(cfg, list, body).body == body,
        upstream_request(cfg, list, body).method == Method::Post,
        upstream_request(cfg, list, body).uri == cfg.upstream.text,
        header::held(upstream_request(cfg, list, body).headers, "authorization"@) == seq![
            cfg.authorization,
        ],
{
    lemma_relay_names();
}

/// The names that a caller may own are the six of the identity surface.
pub proof fn law_six_names_are_the_callers(name: Seq<char>)
    ensures
        is_caller_name(name) == (name == "user-agent"@ || name == "accept"@ || name
            == "x-opencode-client"@ || name == "x-opencode-project"@ || name
            == "x-opencode-session"@ || name == "x-opencode-request"@),
{
}

/// Of several listed values under one of the six names, the last one that can stand in a
/// header goes out, as it is and unmarked; values that cannot are left out.
pub proof fn law_the_last_sound_value_goes_out(
    front: Seq<(Seq<char>, Seq<char>)>,
    name: Seq<char>,
    value: Seq<char>,
    behind: Seq<(Seq<char>, Seq<char>)>,
)
    requires
        is_caller_name(name),
        header::is_value(encode_utf8(value)),
        forall|i: int|
            0 <= i < behind.len() ==> (#[trigger] behind[i]).0 != name || !header::is_value(
                encode_utf8(behind[i].1),
            ),
    ensures
        header::held(listed_entries(front + seq![(name, value)] + behind), name) == seq![
            (encode_utf8(value), false),
        ],
    decreases behind.len(),
{
    let all = front + seq![(name, value)] + behind;
    if behind.len() == 0 {
        assert(all.last() == (name, value));
    } else {
        let fewer = behind.drop_last();
        assert(all.drop_last() =~= front + seq![(name, value)] + fewer);
        assert(all.last() == behind[behind.len() - 1]);
        assert forall|i: int| 0 <= i < fewer.len() implies (#[trigger] fewer[i]).0 != name
            || !header::is_value(encode_utf8(fewer[i].1)) by {
            assert(fewer[i] == behind[i]);
        }
        law_the_last_sound_value_goes_out(front, name, value, fewer);
    }
}

/// A name under which no value can go out is not there.
pub proof fn law_unsound_values_stay_behind(list: Seq<(Seq<char>, Seq<char>)>, name: Seq<char>)
    requires
        !is_caller_name(name) || forall|i: int|
            0 <= i < list.len() ==> (#[trigger] list[i]).0 != name || !header::is_value(
                encode_utf8(list[i].1),
            ),
    ensures
        !listed_entries(list).contains_key(name),
    decreases list.len(),
{
    if list.len() > 0 {
        let fewer = list.drop_last();
        assert(list.last() == list[list.len() - 1]);
        assert(is_caller_name(name) ==> forall|i: int|
            0 <= i < fewer.len() ==> (#[trigger] fewer[i]).0 != name || !header::is_value(
                encode_utf8(fewer[i].1),
            )) by {
            if is_caller_name(name) {
                assert forall|i: int| 0 <= i < fewer.len() implies (#[trigger] fewer[i]).0 != name
                    || !header::is_value(encode_utf8(fewer[i].1)) by {
                    assert(fewer[i] == list[i]);
                }
            }
        }
        law_unsound_values_stay_behind(fewer, name);
    }
}

/// The texts of values behind each other.
proof fn lemma_visible_split(a: Seq<(Seq<u8>, bool)>, b: Seq<(Seq<u8>, bool)>)
    ensures
        visible_texts(a + b) == visible_texts(a) + visible_texts(b),
    decreases b.len(),
{
    if b.len() == 0 {
        assert(a + b =~= a);
        assert(visible_texts(a) + visible_texts(b) =~= visible_texts(a));
    } else {
        assert((a + b).drop_last() =~= a + b.drop_last());
        assert((a + b).last() == b.last());
        lemma_visible_split(a, b.drop_last());
        assert(visible_texts(a + b) =~= visible_texts(a) + visible_texts(b));
    }
}

/// Values of which none is text have no texts.
proof fn lemma_none_visible(a: Seq<(Seq<u8>, bool)>)
    requires
        forall|i: int| 0 <= i < a.len() ==> !header::all_visible((#[trigger] a[i]).0),
    ensures
        visible_texts(a).len() == 0,
    decreases a.len(),
{
    if a.len() > 0 {
        let fewer = a.drop_last();
        assert(!header::all_visible(a[a.len() - 1].0));
        assert forall|i: int| 0 <= i < fewer.len() implies !header::all_visible(
            (#[trigger] fewer[i]).0,
        ) by {
            assert(fewer[i] == a[i]);
        }
        lemma_none_visible(fewer);
    }
}

/// What a caller sent under a name is its first value there that is text, byte for byte;
/// without one it sent nothing.
pub proof fn law_the_first_text_counts(
    entries: Map<Seq<char>, Seq<(Seq<u8>, bool)>>,
    name: Seq<char>,
    front: Seq<(Seq<u8>, bool)>,
    value: (Seq<u8>, bool),
    behind: Seq<(Seq<u8>, bool)>,
)
    requires
        forall|i: int| 0 <= i < front.len() ==> !header::all_visible((#[trigger] front[i]).0),
        header::all_visible(value.0),
    ensures
        header::held(entries, name) == front + seq![value] + behind ==> (sent(
            entries,
            name,
        ) matches Some(shown) && encode_utf8(shown) == value.0),
        header::held(entries, name) == front ==> sent(entries, name) is None,
{
    lemma_none_visible(front);
    if header::held(entries, name) == front + seq![value] + behind {
        lemma_visible_split(front + seq![value], behind);
        lemma_visible_split(front, seq![value]);
        assert(seq![value].drop_last() =~= Seq::empty());
        assert(seq![value].last() == value);
        assert(visible_texts(seq![value].drop_last()) =~= Seq::empty());
        assert(visible_texts(seq![value]) =~= seq![decode_utf8(value.0)]);
        lemma_visible_is_text(value.0);
    }
}

/// What a request holds of the six headers is what was sent under each of their names.
pub proof fn law_requests_are_read_by_name(entries: Map<Seq<char>, Seq<(Seq<u8>, bool)>>)
    ensures
        caller_in(entries).agent == sent(entries, "user-agent"@),
        caller_in(entries).accept == sent(entries, "accept"@),
        caller_in(entries).client == sent(entries, "x-opencode-client"@),
        caller_in(entries).project == sent(entries, "x-opencode-project"@),
        caller_in(entries).session == sent(entries, "x-opencode-session"@),
        caller_in(entries).request == sent(entries, "x-opencode-request"@),
{
}

/// From the client's request to the one upstream: under each of five names upstream gets
/// what the client sent there, and where it sent nothing, what a genuine client would
/// have. The agent string is the client's where it names the upstream client.
pub proof fn law_what_a_caller_sends_arrives(
    cfg: crate::config::ConfigView,
    entries: Map<Seq<char>, Seq<(Seq<u8>, bool)>>,
    fallback_session: Seq<char>,
    last: u64,
    now: u64,
    body: Seq<u8>,
)
    requires
        header::is_value(encode_utf8(fallback_session)),
    ensures
        ({
            let out = upstream_request(
                cfg,
                identity::upstream_pairs(
                    caller_in(entries),
                    fallback_session,
                    identity::request_id(last, now),
                ),
                body,
            ).headers;
            &&& header::held(out, "accept"@) == reply::one(
                sent(entries, "accept"@).unwrap_or("*/*"@),
            )
            &&& header::held(out, "x-opencode-client"@) == reply::one(
                sent(entries, "x-opencode-client"@).unwrap_or("cli"@),
            )
            &&& header::held(out, "x-opencode-project"@) == reply::one(
                sent(entries, "x-opencode-project"@).unwrap_or("global"@),
            )
            &&& header::held(out, "x-opencode-session"@) == reply::one(
                sent(entries, "x-opencode-session"@).unwrap_or(fallback_session),
            )
            &&& header::held(out, "x-opencode-request"@) == reply::one(
                sent(entries, "x-opencode-request"@).unwrap_or(identity::request_id(last, now)),
            )
            &&& header::held(out, "user-agent"@) == reply::one(
                match sent(entries, "user-agent"@) {
                    Some(agent) => if identity::holds_ignore_case(
                        encode_utf8(agent),
                        encode_utf8("opencode"@),
                    ) {
                        agent
                    } else {
                        "opencode/1.17.15 ai-sdk/provider-utils/4.0.23 runtime/bun/1.3.14"@
                    },
                    None => "opencode/1.17.15 ai-sdk/provider-utils/4.0.23 runtime/bun/1.3.14"@,
                },
            )
        }),
{
    law_requests_have_one_shape(cfg, entries, fallback_session, last, now, body);
    identity::law_caller_values_win(
        caller_in(entries),
        fallback_session,
        identity::request_id(last, now),
    );
    lemma_caller_names_differ();
    lemma_relay_names();
}

/// A value of its own, unmarked.
pub proof fn law_single_values_are_unmarked(value: Seq<char>)
    ensures
        reply::one(value) == seq![(encode_utf8(value), false)],
{
}

/// The model is the top-level string `model` of the body, where it can be read as it
/// stands, and empty otherwise.
pub proof fn law_models_are_read(
    lead: Seq<u8>,
    fs: Seq<crate::document::Field>,
    h: nat,
    gap: Seq<u8>,
    rest: Seq<u8>,
)
    requires
        crate::document::is_space(lead),
        crate::document::are_fields(fs, h),
        crate::document::is_space(gap),
    ensures
        ({
            let model = model_of(lead + crate::document::document_bytes(fs, gap) + rest);
            match crate::document::field_named(fs, encode_utf8("model"@)) {
                Some(v) => {
                    let inside = v.subrange(1, v.len() - 1);
                    if v[0] == 0x22 && !inside.contains(0x5c) && valid_utf8(inside) {
                        model == decode_utf8(inside)
                    } else {
                        model.len() == 0
                    }
                },
                None => model.len() == 0,
            }
        }),
{
    crate::document::law_top_level_texts_are_read(lead, fs, h, gap, rest, encode_utf8("model"@));
}

/// Without a top-level text of its own, a body has an empty model.
pub proof fn law_models_are_top_level_texts(body: Seq<u8>)
    ensures
        model_of(body) == convert::top_level_text(body, encode_utf8("model"@)).unwrap_or(seq![]),
{
}

/// A status of four hundred or more is an error. Below, an answer is a stream exactly
/// where its first content type is text that has `event-stream` in it.
pub proof fn law_answers_are_classified(
    status: u16,
    before: Seq<u8>,
    behind: Seq<u8>,
    mark: bool,
    others: Seq<(Seq<u8>, bool)>,
    values: Seq<(Seq<u8>, bool)>,
)
    ensures
        status >= 400 ==> class_of(status, values) == Class::Error,
        status < 400 && header::all_visible(before) && header::all_visible(behind) ==> class_of(
            status,
            seq![(before + encode_utf8("event-stream"@) + behind, mark)] + others,
        ) == Class::Stream,
        status < 400 && (values.len() == 0 || !header::all_visible(values[0].0) || forall|i: int|
            0 <= i <= values[0].0.len() - 12 ==> #[trigger] values[0].0.subrange(i, i + 12)
                != encode_utf8("event-stream"@)) ==> class_of(status, values) == Class::Body,
{
    let needle = encode_utf8("event-stream"@);
    reveal_strlit("event-stream");
    is_ascii_chars_encode_utf8("event-stream"@);
    assert(needle.len() == 12);
    assert(header::all_visible(needle));
    let hay = before + needle + behind;
    let i = before.len() as int;
    assert(hay.subrange(i, i + 12) =~= needle);
    assert(text::occurs_at(hay, needle, i));
    if header::all_visible(before) && header::all_visible(behind) {
        assert forall|k: int| 0 <= k < hay.len() implies header::is_visible(#[trigger] hay[k]) by {
            if k < i {
                assert(hay[k] == before[k]);
            } else if k < i + 12 {
                assert(hay[k] == needle[k - i]);
            } else {
                assert(hay[k] == behind[k - i - 12]);
            }
        }
    }
    let list = seq![(hay, mark)] + others;
    assert(list[0] == (hay, mark));
}

/// An answer that is not a stream is relayed under the status that upstream gave it, as
/// JSON; only a number that is no status is taken for 200. A stream is relayed under 200,
/// with headers that keep proxies from holding it back.
pub proof fn law_answers_keep_their_status(status: u16)
    ensures
        100 <= status <= 999 ==> relayed_head(Upstream::Body { status }).status == status,
        !(100 <= status <= 999) ==> relayed_head(Upstream::Body { status }).status == 200,
        header::held(relayed_head(Upstream::Body { status }).headers, "content-type"@)
            == reply::one("application/json; charset=utf-8"@),
        relayed_head(Upstream::Body { status }).headers.dom() == set!["content-type"@],
        relayed_head(Upstream::Stream).status == 200,
        header::held(relayed_head(Upstream::Stream).headers, "content-type"@) == reply::one(
            "text/event-stream; charset=utf-8"@,
        ),
        header::held(relayed_head(Upstream::Stream).headers, "cache-control"@) == reply::one(
            "no-cache"@,
        ),
        header::held(relayed_head(Upstream::Stream).headers, "x-accel-buffering"@) == reply::one(
            "no"@,
        ),
        relayed_head(Upstream::Stream).headers.dom() == set![
            "content-type"@,
            "cache-control"@,
            "x-accel-buffering"@,
        ],
{
    reveal_strlit("content-type");
    reveal_strlit("cache-control");
    reveal_strlit("x-accel-buffering");
    assert("content-type"@.len() == 12 && "cache-control"@.len() == 13
        && "x-accel-buffering"@.len() == 17);
    assert(relayed_head(Upstream::Body { status }).headers.dom() =~= set!["content-type"@]);
    assert(relayed_head(Upstream::Stream).headers.dom() =~= set![
        "content-type"@,
        "cache-control"@,
        "x-accel-buffering"@,
    ]);
}

/// Trying again may help exactly where upstream did not answer, was too slow, refused for
/// the rate, or failed itself.
pub proof fn law_what_may_be_retried(status: u16, body: Seq<u8>, cause: Seq<char>)
    ensures
        may_retry(ErrorView::Transport(cause)),
        may_retry(ErrorView::Status { status, body }) == (status == 408 || status == 429 || 500
            <= status < 600),
{
}

/// A failure that may be retried is retried while there are retries left, each time after
/// a pause longer by three quarters of a second; any other outcome is answered at once.
pub proof fn law_retryable_failures_are_retried(
    attempt: u32,
    max_retries: u32,
    outcome: Result<Upstream, ErrorView>,
)
    ensures
        outcome matches Ok(up) ==> after_attempt(attempt, max_retries, outcome)
            == ChatStepView::Relay(relayed_head(up)),
        outcome matches Err(e) ==> (attempt < max_retries && may_retry(e) ==> after_attempt(
            attempt,
            max_retries,
            outcome,
        ) == (ChatStepView::Retry { delay_ms: (750 * (attempt + 1)) as u64 })),
        outcome matches Err(e) ==> (attempt >= max_retries || !may_retry(e) ==> after_attempt(
            attempt,
            max_retries,
            outcome,
        ) == ChatStepView::Answer(error_reply(e))),
        goes_on(attempt, max_retries, outcome) == (outcome is Err && may_retry(outcome->Err_0)
            && attempt < max_retries),
{
}

/// The answer to a failure: upstream's own status, with its body in the OpenAI error
/// shape; a failure to reach it is a bad gateway that names the cause.
pub proof fn law_failures_keep_their_status(status: u16, body: Seq<u8>, cause: Seq<char>)
    ensures
        100 <= status <= 999 ==> error_reply(ErrorView::Status { status, body }).status == status,
        !(100 <= status <= 999) ==> error_reply(ErrorView::Status { status, body }).status == 502,
        error_reply(ErrorView::Status { status, body }).body == error::normalized(body, status),
        header::held(error_reply(ErrorView::Status { status, body }).headers, "content-type"@)
            == reply::one("application/json; charset=utf-8"@),
        header::held(error_reply(ErrorView::Status { status, body }).headers, "retry-after"@) == (
        if status == 429 {
            reply::one("30"@)
        } else {
            seq![]
        }),
        error_reply(ErrorView::Transport(cause)).status == 502,
        error_reply(ErrorView::Transport(cause)).body == encode_utf8(
            error::envelope(502, "upstream request failed: "@ + cause),
        ),
        header::held(error_reply(ErrorView::Transport(cause)).headers, "content-type"@)
            == reply::one("application/json; charset=utf-8"@),
{
    reveal_strlit("content-type");
    reveal_strlit("retry-after");
    assert("content-type"@.len() == 12 && "retry-after"@.len() == 11);
}

/// A body over the cap is refused as too large, with the cap in the message; one that
/// broke is a bad request, with the cause in it.
pub proof fn law_unread_bodies_are_refused(max_body: usize, cause: String)
    ensures
        body_refusal(BodyFailure::TooLarge, max_body).status == 413,
        body_refusal(BodyFailure::TooLarge, max_body).body == encode_utf8(
            error::envelope(
                413,
                "request body exceeds the "@ + text::decimal(max_body as nat) + " byte limit"@,
            ),
        ),
        body_refusal(BodyFailure::Broken(cause), max_body).status == 400,
        body_refusal(BodyFailure::Broken(cause), max_body).body == encode_utf8(
            error::envelope(400, "could not read request body: "@ + cause@),
        ),
{
}

/// How an attempt ended is taken as it is.
pub proof fn law_outcomes_are_taken_as_they_are(up: Upstream, e: ErrorEnvelope)
    ensures
        ended(Ok::<Upstream, ErrorEnvelope>(up)) == Ok::<Upstream, ErrorView>(up),
        ended(Err::<Upstream, ErrorEnvelope>(e)) == Err::<Upstream, ErrorView>(e@),
        e matches ErrorEnvelope::Transport(cause) ==> e@ == ErrorView::Transport(cause@),
        e matches ErrorEnvelope::Status { status, body } ==> e@ == (ErrorView::Status {
            status,
            body: buffer::content(body),
        }),
{
}

/// The texts under a name are the values of the pairs with that name, all of them, in
/// order.
pub proof fn law_texts_are_listed_in_order(
    list: Seq<(Seq<char>, Seq<char>)>,
    more: (Seq<char>, Seq<char>),
    name: Seq<char>,
)
    ensures
        texts_under(list.push(more), name) == (if more.0 == name {
            texts_under(list, name).push(more.1)
        } else {
            texts_under(list, name)
        }),
        texts_under(seq![], name).len() == 0,
{
    assert(list.push(more).drop_last() =~= list);
}

/// All values that are text, in order, and no others.
pub proof fn law_texts_among_values(
    values: Seq<(Seq<u8>, bool)>,
    more: (Seq<u8>, bool),
    t: Seq<char>,
)
    ensures
        !header::all_visible(more.0) ==> visible_texts(values.push(more)) == visible_texts(values),
        header::all_visible(more.0) && encode_utf8(t) == more.0 ==> visible_texts(values.push(more))
            == visible_texts(values).push(t),
        visible_texts(seq![]).len() == 0,
{
    assert(values.push(more).drop_last() =~= values);
    encode_utf8_decode_utf8(t);
}

/// A completion can begin unless it needs an ID and the clock has none left.
pub proof fn law_completions_can_begin(
    entries: Map<Seq<char>, Seq<(Seq<u8>, bool)>>,
    was_read: bool,
    clock: IdClock,
    now: u64,
)
    ensures
        can_begin(entries, was_read, clock, now) == !(was_read && sent(
            entries,
            "x-opencode-request"@,
        ) is None && !clock.can_tick(now)),
        clock.last < u64::MAX ==> can_begin(entries, was_read, clock, now),
{
}

/// A head and a step are seen as they are.
pub proof fn law_heads_are_seen_as_they_are(head: ReplyHead, answer: Reply, delay_ms: u64)
    ensures
        head@.status == head.status,
        head@.headers == header::entries(head.headers),
        ChatStep::Relay(head)@ == ChatStepView::Relay(head@),
        ChatStep::Answer(answer)@ == ChatStepView::Answer(answer@),
        (ChatStep::Retry { delay_ms })@ == (ChatStepView::Retry { delay_ms }),
{
}

/// How much of an error page is read, how long the first pause is, and how long a client
/// that was refused for its rate is asked to wait.
pub proof fn law_errors_are_bounded()
    ensures
        MAX_ERROR_BODY == 65536,
        RETRY_DELAY_MS == 750,
        RETRY_AFTER_429_SECS@ == "30"@,
{
}

} // verus!
