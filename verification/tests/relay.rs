use bytes::Bytes;
use hyper::header::{HeaderMap, HeaderName, HeaderValue};
use llm_relay::config::Config;
use llm_relay::identity::{mint_id, IdClock, DEFAULT_UA, H_CLIENT, H_PROJECT, H_REQUEST, H_SESSION};
use llm_relay::relay::{
    body_error, build_error, build_request, caller_header_name, caller_headers, classify,
    client_model, error_body, is_caller_header, prewarm_request, serve, serve_error, BodyFailure, Chat,
    ChatStep, Class, ErrorEnvelope, Upstream, MAX_ERROR_BODY,
};
use llm_relay::reply::Reply;
use llm_relay::request::Method;
use serde_json::Value;

fn config() -> Config {
    match Config::new(Some("SECRET-REDACTED"), None, None) {
        Ok(cfg) => cfg,
        Err(e) => panic!("{}", e.message()),
    }
}

fn headers(pairs: &[(&'static str, &[u8])]) -> HeaderMap<HeaderValue> {
    let mut out = HeaderMap::new();
    for (name, value) in pairs {
        out.append(HeaderName::from_static(name), HeaderValue::from_bytes(value).unwrap());
    }
    out
}

fn message(reply: &Reply) -> String {
    let v: Value = serde_json::from_slice(&reply.body).expect("valid JSON");
    v["error"]["message"].as_str().unwrap().to_string()
}

fn begun(cfg: &Config, sent: &HeaderMap<HeaderValue>, body: &'static [u8]) -> Chat {
    let mut clock = IdClock::new();
    match Chat::begin(cfg, sent, Ok(Bytes::from_static(body)), &mut clock, "ses_fallback", 42) {
        Ok(chat) => chat,
        Err(_) => panic!("refused"),
    }
}

#[test]
fn only_the_identity_surface_belongs_to_a_caller() {
    for name in ["user-agent", "accept", H_CLIENT, H_PROJECT, H_SESSION, H_REQUEST] {
        assert!(is_caller_header(name));
        assert_eq!(caller_header_name(name), Some(name));
    }
    for name in ["authorization", "content-type", "cookie", "User-Agent", ""] {
        assert!(!is_caller_header(name));
        assert_eq!(caller_header_name(name), None);
    }
}

#[test]
fn a_callers_headers_are_picked_out_in_order() {
    let sent = headers(&[
        ("accept", b"one"),
        ("cookie", b"c"),
        ("accept", b"not \xfftext"),
        ("accept", b"two"),
        ("x-opencode-session", b"s"),
    ]);
    let mut picked = caller_headers(&sent);
    picked.sort_by(|a, b| a.0.cmp(&b.0));
    let want = [("accept", "one"), ("accept", "two"), ("x-opencode-session", "s")];
    let want: Vec<(String, String)> =
        want.iter().map(|(k, v)| (k.to_string(), v.to_string())).collect();
    assert_eq!(picked, want);
}

#[test]
fn the_model_is_read_off_the_body() {
    assert_eq!(client_model(br#"{"messages":[{"model":"no"}],"model":"m-1"}"#), "m-1");
    assert_eq!(client_model(b"not json"), "");
    assert_eq!(client_model(br#"{"model":7}"#), "");
}

#[test]
fn a_request_carries_the_credential_and_the_body_byte_for_byte() {
    let cfg = config();
    let body = b"{\"model\":\"m\"}\xff\x00";
    let sent = headers(&[("authorization", b"Bearer theirs"), ("content-type", b"text/plain")]);
    let out = begun(&cfg, &sent, body).request(&cfg);
    assert_eq!(out.method, Method::Post);
    assert_eq!(out.uri, "https://opencode.ai/zen/v1/chat/completions");
    assert_eq!(&out.body[..], body);
    assert_eq!(out.headers.len(), 8);
    assert_eq!(out.headers["authorization"], "Bearer SECRET-REDACTED");
    assert!(out.headers["authorization"].is_sensitive());
    assert_eq!(out.headers["content-type"], "application/json");
    assert_eq!(out.headers["user-agent"], DEFAULT_UA);
    assert_eq!(out.headers["accept"], "*/*");
    assert_eq!(out.headers[H_CLIENT], "cli");
    assert_eq!(out.headers[H_PROJECT], "global");
    assert_eq!(out.headers[H_SESSION], "ses_fallback");
    assert_eq!(out.headers[H_REQUEST], "msg_00000002a00154b9AUjZRipULd");
    assert!(!out.headers["accept"].is_sensitive());
}

#[test]
fn a_callers_own_values_go_upstream() {
    let cfg = config();
    let sent = headers(&[
        ("user-agent", b"OpenCode/9"),
        ("x-opencode-request", b"\xff"),
        ("x-opencode-request", b"mine"),
        ("x-opencode-session", b"s"),
        ("x-opencode-client", b"c"),
        ("x-opencode-project", b"p"),
        ("accept", b"a"),
    ]);
    let out = begun(&cfg, &sent, b"{}").request(&cfg);
    assert_eq!(out.headers["user-agent"], "OpenCode/9");
    assert_eq!(out.headers[H_REQUEST], "mine");
    assert_eq!(out.headers[H_SESSION], "s");
    assert_eq!(out.headers[H_CLIENT], "c");
    assert_eq!(out.headers[H_PROJECT], "p");
    assert_eq!(out.headers["accept"], "a");
}

#[test]
fn a_value_that_cannot_stand_in_a_header_is_left_out() {
    let cfg = config();
    let list = vec![
        ("accept".to_string(), "first".to_string()),
        ("accept".to_string(), "second".to_string()),
        ("user-agent".to_string(), "bad\nvalue".to_string()),
        ("cookie".to_string(), "c".to_string()),
        (H_CLIENT.to_string(), "h\u{e9}".to_string()),
    ];
    let out = build_request(&cfg, &list, Bytes::new());
    assert_eq!(out.headers["accept"], "second");
    assert!(out.headers.get("user-agent").is_none());
    assert!(out.headers.get("cookie").is_none());
    assert_eq!(out.headers[H_CLIENT].as_bytes(), "h\u{e9}".as_bytes());
    assert_eq!(out.headers.len(), 4);
}

#[test]
fn the_connection_is_warmed_with_an_empty_request() {
    let out = prewarm_request(&config());
    assert_eq!(out.method, Method::Get);
    assert_eq!(out.uri, "https://opencode.ai/zen/v1/chat/completions");
    assert!(out.body.is_empty());
    assert_eq!(out.headers.len(), 1);
    assert_eq!(out.headers["authorization"], "Bearer SECRET-REDACTED");
}

#[test]
fn answers_are_classified_by_status_and_type() {
    let sse = headers(&[("content-type", b"text/event-stream; charset=utf-8")]);
    let json = headers(&[("content-type", b"application/json")]);
    let later = headers(&[("content-type", b"application/json"), ("content-type", b"text/event-stream")]);
    let odd = headers(&[("content-type", b"text/event-stream\xff")]);
    assert_eq!(classify(200, &sse), Class::Stream);
    assert_eq!(classify(399, &sse), Class::Stream);
    assert_eq!(classify(400, &sse), Class::Error);
    assert_eq!(classify(503, &json), Class::Error);
    assert_eq!(classify(200, &json), Class::Body);
    assert_eq!(classify(200, &later), Class::Body);
    assert_eq!(classify(200, &odd), Class::Body);
    assert_eq!(classify(200, &HeaderMap::new()), Class::Body);
    assert_eq!(MAX_ERROR_BODY, 64 * 1024);
}

#[test]
fn a_stream_is_served_unbuffered() {
    let head = serve(Upstream::Stream);
    assert_eq!(head.status, 200);
    assert_eq!(head.headers["content-type"], "text/event-stream; charset=utf-8");
    assert_eq!(head.headers["cache-control"], "no-cache");
    assert_eq!(head.headers["x-accel-buffering"], "no");
    assert_eq!(head.headers.len(), 3);
}

#[test]
fn a_body_is_served_under_its_status() {
    let head = serve(Upstream::Body { status: 203 });
    assert_eq!(head.status, 203);
    assert_eq!(head.headers["content-type"], "application/json; charset=utf-8");
    assert_eq!(head.headers.len(), 1);
    assert_eq!(serve(Upstream::Body { status: 99 }).status, 200);
    assert_eq!(serve(Upstream::Body { status: 1000 }).status, 200);
}

fn status(status: u16, body: &'static [u8]) -> ErrorEnvelope {
    ErrorEnvelope::Status { status, body: Bytes::from_static(body) }
}

#[test]
fn some_failures_are_worth_another_try() {
    assert!(ErrorEnvelope::Transport("x".to_string()).retryable());
    for code in [408, 429, 500, 502, 599] {
        assert!(status(code, b"").retryable(), "{code}");
    }
    for code in [400, 401, 404, 407, 409, 428, 430, 499, 600] {
        assert!(!status(code, b"").retryable(), "{code}");
    }
}

#[test]
fn upstream_failures_are_answered_in_the_error_shape() {
    let reply = serve_error(status(404, b"nope"));
    assert_eq!(reply.status, 404);
    assert_eq!(message(&reply), "nope");
    assert!(reply.headers.get("retry-after").is_none());
    assert_eq!(reply.headers["content-type"], "application/json; charset=utf-8");

    let reply = serve_error(status(429, b"slow down"));
    assert_eq!(reply.status, 429);
    assert_eq!(reply.headers["retry-after"], "30");
    assert_eq!(reply.headers.len(), 2);

    let reply = serve_error(status(1000, b"odd"));
    assert_eq!(reply.status, 502);

    let reply = serve_error(ErrorEnvelope::Transport("dns \"failed\"".to_string()));
    assert_eq!(reply.status, 502);
    assert_eq!(message(&reply), "upstream request failed: dns \"failed\"");
}

#[test]
fn an_unread_body_is_refused() {
    let reply = body_error(BodyFailure::TooLarge, 33554432);
    assert_eq!(reply.status, 413);
    assert_eq!(message(&reply), "request body exceeds the 33554432 byte limit");
    let reply = body_error(BodyFailure::Broken("reset".to_string()), 1);
    assert_eq!(reply.status, 400);
    assert_eq!(message(&reply), "could not read request body: reset");
    let reply = build_error("bad uri");
    assert_eq!(reply.status, 500);
    assert_eq!(message(&reply), "could not build upstream request: bad uri");
}

#[test]
fn a_refused_body_sends_nothing_and_mints_nothing() {
    let cfg = config();
    let mut clock = IdClock { last: 9 };
    let res = Chat::begin(
        &cfg,
        &HeaderMap::new(),
        Err(BodyFailure::TooLarge),
        &mut clock,
        "ses_fallback",
        42,
    );
    match res {
        Ok(_) => panic!("accepted"),
        Err(reply) => assert_eq!(message(&reply), "request body exceeds the 33554432 byte limit"),
    }
    assert_eq!(clock.last, 9);
}

#[test]
fn a_failure_is_retried_once_and_then_answered() {
    let cfg = config();
    let mut chat = begun(&cfg, &HeaderMap::new(), br#"{"model":"m-2"}"#);
    assert_eq!(chat.model(), "m-2");
    let first = chat.request(&cfg);
    match chat.on_outcome(Err(status(503, b"busy"))) {
        ChatStep::Retry { delay_ms } => assert_eq!(delay_ms, 750),
        _ => panic!("no retry"),
    }
    // The same request goes out again.
    let second = chat.request(&cfg);
    assert_eq!(first.headers, second.headers);
    assert_eq!(first.body, second.body);
    match chat.on_outcome(Err(status(500, b"still"))) {
        ChatStep::Answer(reply) => {
            assert_eq!(reply.status, 500);
            assert_eq!(message(&reply), "still");
        }
        _ => panic!("no answer"),
    }
}

#[test]
fn a_retry_can_succeed() {
    let cfg = config();
    let mut chat = begun(&cfg, &HeaderMap::new(), b"{}");
    assert!(matches!(
        chat.on_outcome(Err(ErrorEnvelope::Transport("reset".to_string()))),
        ChatStep::Retry { delay_ms: 750 }
    ));
    match chat.on_outcome(Ok(Upstream::Body { status: 201 })) {
        ChatStep::Relay(head) => assert_eq!(head.status, 201),
        _ => panic!("not relayed"),
    }
}

#[test]
fn a_refusal_is_not_retried() {
    let cfg = config();
    let mut chat = begun(&cfg, &HeaderMap::new(), b"{}");
    match chat.on_outcome(Err(status(401, b"no"))) {
        ChatStep::Answer(reply) => assert_eq!(reply.status, 401),
        _ => panic!("no answer"),
    }
}

#[test]
fn each_retry_waits_longer() {
    let mut cfg = config();
    cfg.max_retries = 3;
    let mut chat = begun(&cfg, &HeaderMap::new(), b"{}");
    for delay in [750u64, 1500, 2250] {
        match chat.on_outcome(Err(status(429, b""))) {
            ChatStep::Retry { delay_ms } => assert_eq!(delay_ms, delay),
            _ => panic!("no retry"),
        }
    }
    assert!(matches!(chat.on_outcome(Err(status(429, b""))), ChatStep::Answer(_)));
}

#[test]
fn an_error_page_that_cannot_be_read_is_an_empty_one() {
    assert_eq!(error_body(Some(Bytes::from_static(b"oops"))), "oops");
    assert!(error_body(None).is_empty());
}

#[test]
fn a_completion_can_begin_unless_it_needs_an_id_and_there_is_none() {
    let spent = IdClock { last: u64::MAX };
    let fresh = IdClock::new();
    let none = HeaderMap::new();
    let named = headers(&[("x-opencode-request", b"\xff"), ("x-opencode-request", b"mine")]);
    let unreadable = headers(&[("x-opencode-request", b"\xff")]);
    let body = Ok(Bytes::new());
    assert!(Chat::may_begin(&none, &body, &fresh, 1));
    assert!(Chat::may_begin(&named, &body, &spent, 1));
    assert!(!Chat::may_begin(&none, &body, &spent, 1));
    assert!(!Chat::may_begin(&unreadable, &body, &spent, 1));
    assert!(Chat::may_begin(&none, &Err(BodyFailure::TooLarge), &spent, 1));
}

#[test]
fn a_minted_session_can_stand_in_a_header() {
    let mut clock = IdClock::new();
    let session = mint_id(&mut clock, "ses", true, 42);
    assert!(HeaderValue::from_str(&session).is_ok());
}
