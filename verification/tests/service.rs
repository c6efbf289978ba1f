use llm_relay::config::{
    listen_port, millis_of, now_millis, read_endpoint, upstream_key, worker_threads, Config,
    ConfigError, Endpoint, UPSTREAM,
};
use llm_relay::reply::{fail, json_ct, json_response, not_allowed, Reply};
use llm_relay::route::{route, Route, HEALTHZ_BODY, INDEX_BODY, VERSION};
use llm_relay::server::{
    step, unhealthy, wants_healthcheck, Action, Event, Healthcheck, Phase, Verdict,
    HEALTHCHECK_REQUEST,
};
use serde_json::Value;

fn answer(method: &str, path: &str) -> Reply {
    match route(method, path) {
        Route::Answer(reply) => reply,
        Route::Chat | Route::Egress => panic!("no answer"),
    }
}

#[test]
fn service_endpoints_answer_fixed_text() {
    let reply = answer("GET", "/healthz");
    assert_eq!(reply.status, 200);
    assert_eq!(&reply.body[..], br#"{"status":"ok"}"#);
    assert_eq!(reply.headers["content-type"], "application/json; charset=utf-8");
    let reply = answer("GET", "/");
    assert_eq!(reply.status, 200);
    let v: Value = serde_json::from_slice(&reply.body).unwrap();
    assert_eq!(v["name"], "llm-relay");
    assert_eq!(v["version"], VERSION);
    assert_eq!(v["endpoints"][0], "POST /v1/chat/completions");
    assert_eq!(v["endpoints"][1], "GET /egress");
    assert_eq!(v["endpoints"][2], "GET /healthz");
    assert_eq!(reply.body, INDEX_BODY);
    assert!(serde_json::from_str::<Value>(HEALTHZ_BODY).is_ok());
}

#[test]
fn chat_and_egress_are_handed_on() {
    assert!(matches!(route("POST", "/v1/chat/completions"), Route::Chat));
    assert!(matches!(route("POST", "/chat/completions"), Route::Chat));
    assert!(matches!(route("GET", "/egress"), Route::Egress));
}

#[test]
fn a_known_path_with_the_wrong_method_names_the_right_one() {
    for path in ["/v1/chat/completions", "/chat/completions"] {
        let reply = answer("GET", path);
        assert_eq!(reply.status, 405);
        assert_eq!(reply.headers["allow"], "POST");
    }
    for path in ["/healthz", "/egress", "/"] {
        for method in ["POST", "HEAD", "get"] {
            let reply = answer(method, path);
            assert_eq!(reply.status, 405);
            assert_eq!(reply.headers["allow"], "GET");
            let v: Value = serde_json::from_slice(&reply.body).unwrap();
            assert_eq!(v["error"]["message"], "method not allowed; use GET");
            assert_eq!(v["error"]["type"], "api_error");
        }
    }
}

#[test]
fn an_unknown_path_is_not_found() {
    for path in ["", "/x\"", "/healthz/", "/v1/chat"] {
        let reply = answer("GET", path);
        assert_eq!(reply.status, 404);
        let v: Value = serde_json::from_slice(&reply.body).unwrap();
        assert_eq!(v["error"]["message"], format!("unknown endpoint: {path}").as_str());
        assert_eq!(v["error"]["type"], "not_found_error");
        assert!(reply.headers.get("allow").is_none());
    }
}

#[test]
fn replies_are_json() {
    assert_eq!(json_ct(), "application/json; charset=utf-8");
    assert!(!json_ct().is_sensitive());
    let reply = json_response(202, bytes::Bytes::from_static(b"{}"));
    assert_eq!((reply.status, &reply.body[..]), (202, &b"{}"[..]));
    // A number that is no status is answered with 500, and named in the type.
    let reply = fail(99, "odd");
    assert_eq!(reply.status, 500);
    let v: Value = serde_json::from_slice(&reply.body).unwrap();
    assert_eq!(v["error"]["type"], "api_error");
    assert_eq!(fail(999, "").status, 999);
    assert_eq!(not_allowed("PUT").headers["allow"], "PUT");
}

#[test]
fn a_key_is_trimmed_and_a_blank_one_replaced() {
    assert_eq!(upstream_key(None), "public");
    assert_eq!(upstream_key(Some("")), "public");
    assert_eq!(upstream_key(Some(" \t\u{3000}\n")), "public");
    assert_eq!(upstream_key(Some(" k 1\u{a0}")), "k 1");
}

#[test]
fn a_port_that_cannot_be_read_is_the_default() {
    assert_eq!(listen_port(None), 8787);
    assert_eq!(listen_port(Some(" 80\n")), 80);
    assert_eq!(listen_port(Some("+65535")), 65535);
    assert_eq!(listen_port(Some("0")), 0);
    for raw in ["", "65536", "-1", "8o80", "+", "1 2"] {
        assert_eq!(listen_port(Some(raw)), 8787, "{raw}");
    }
}

#[test]
fn workers_are_capped() {
    assert_eq!(worker_threads(None), 1);
    assert_eq!(worker_threads(Some(0)), 1);
    assert_eq!(worker_threads(Some(3)), 3);
    assert_eq!(worker_threads(Some(64)), 4);
}

#[test]
fn the_configuration_is_resolved_once() {
    let cfg = match Config::new(Some(" key "), Some("9000"), Some(2)) {
        Ok(cfg) => cfg,
        Err(e) => panic!("{}", e.message()),
    };
    assert_eq!(cfg.authorization, "Bearer key");
    assert!(cfg.authorization.is_sensitive());
    assert_eq!((cfg.port, cfg.worker_threads, cfg.max_retries), (9000, 2, 1));
    assert_eq!(cfg.max_body, 32 * 1024 * 1024);
    assert_eq!(cfg.bind, [0, 0, 0, 0]);
    assert_eq!(cfg.upstream.text, UPSTREAM);
    assert_eq!(cfg.upstream.shown, UPSTREAM);
    assert_eq!(cfg.upstream.host.as_deref(), Some("opencode.ai"));
    assert_eq!(cfg.egress_v4.host.as_deref(), Some("api.ipify.org"));
    assert_eq!(cfg.egress_v6.host.as_deref(), Some("api6.ipify.org"));
    // A URI without a path is displayed with one.
    assert_eq!(cfg.egress_v4.shown, "https://api.ipify.org/");
}

#[test]
fn the_upstream_endpoint_is_the_one_the_real_client_uses() {
    let hidden = [
        0x32, 0x2e, 0x2e, 0x2a, 0x29, 0x60, 0x75, 0x75, 0x35, 0x2a, 0x3f, 0x34, 0x39, 0x35, 0x3e,
        0x3f, 0x74, 0x3b, 0x33, 0x75, 0x20, 0x3f, 0x34, 0x75, 0x2c, 0x6b, 0x75, 0x39, 0x32, 0x3b,
        0x2e, 0x75, 0x39, 0x35, 0x37, 0x2a, 0x36, 0x3f, 0x2e, 0x33, 0x35, 0x34, 0x29u8,
    ];
    let shown: String = hidden.iter().map(|b| (b ^ 0x5A) as char).collect();
    assert_eq!(UPSTREAM, shown);
}

#[test]
fn a_key_that_cannot_stand_in_a_header_is_an_error() {
    match Config::new(Some("a\nb"), None, None) {
        Ok(_) => panic!("accepted"),
        Err(e) => {
            assert!(matches!(e, ConfigError::Key));
            assert_eq!(e.message(), "the upstream key contains bytes that cannot go in a header");
        }
    }
}

fn endpoint() -> Result<Endpoint, String> {
    Ok(Endpoint { text: "a".to_string(), shown: "b".to_string(), host: None })
}

#[test]
fn the_first_uri_that_cannot_be_read_is_reported() {
    let bad = |cause: &str| Err(cause.to_string());
    for (up, v4, v6, want) in [
        (bad("up"), bad("v4"), endpoint(), "up"),
        (endpoint(), bad("v4"), bad("v6"), "v4"),
        (endpoint(), endpoint(), bad("v6"), "v6"),
    ] {
        match Config::assemble(None, None, None, up, v4, v6) {
            Ok(_) => panic!("accepted"),
            Err(e) => assert_eq!(e.message(), want),
        }
    }
    match Config::assemble(None, None, None, endpoint(), endpoint(), endpoint()) {
        Ok(cfg) => assert_eq!(cfg.authorization, "Bearer public"),
        Err(e) => panic!("{}", e.message()),
    }
    match read_endpoint("http://[") {
        Ok(_) => panic!("accepted"),
        Err(cause) => assert_eq!(cause, "invalid authority"),
    }
}

#[test]
fn the_clock_counts_milliseconds() {
    assert_eq!(millis_of(None), 0);
    assert_eq!(millis_of(Some(1_700_000_000_123)), 1_700_000_000_123);
    assert_eq!(millis_of(Some(0x1_0000_0000_0000_0005)), 5);
    // Some time in this millennium.
    let now = now_millis();
    assert!(now > 1_600_000_000_000 && now < 32_000_000_000_000);
}

#[test]
fn the_accept_loop_outlives_failed_accepts() {
    let mut phase = Phase::Accepting;
    for event in [Event::AcceptFailed, Event::Connected, Event::AcceptFailed, Event::GraceElapsed] {
        let (next, action) = step(phase, event);
        assert_eq!(next, Phase::Accepting);
        let want = if event == Event::Connected { Action::Serve } else { Action::Wait };
        assert_eq!(action, want);
        phase = next;
    }
    let (phase, action) = step(phase, Event::StopRequested);
    assert_eq!((phase, action), (Phase::Draining, Action::Drain { grace_secs: 25 }));
    assert_eq!(step(phase, Event::Connected), (Phase::Draining, Action::Wait));
    assert_eq!(step(phase, Event::Drained), (Phase::Stopped, Action::Stop));
    assert_eq!(step(phase, Event::GraceElapsed), (Phase::Stopped, Action::Stop));
    assert_eq!(step(Phase::Stopped, Event::Connected), (Phase::Stopped, Action::Stop));
}

fn args(list: &[&str]) -> Vec<String> {
    list.iter().map(|a| a.to_string()).collect()
}

#[test]
fn the_flag_may_stand_anywhere_but_in_front() {
    assert!(wants_healthcheck(&args(&["relay", "--healthcheck"])));
    assert!(wants_healthcheck(&args(&["relay", "-v", "--healthcheck", "x"])));
    assert!(!wants_healthcheck(&args(&["--healthcheck"])));
    assert!(!wants_healthcheck(&args(&["relay", "--healthchecks"])));
    assert!(!wants_healthcheck(&args(&[])));
}

fn verdict(chunks: &[&[u8]]) -> Result<(), String> {
    let mut probe = Healthcheck::new();
    for chunk in chunks {
        assert!(chunk.len() <= probe.room());
        match probe.on_read(chunk) {
            Verdict::More => {}
            Verdict::Healthy => return Ok(()),
            Verdict::Unhealthy(reason) => return Err(reason),
        }
    }
    Err("more".to_string())
}

#[test]
fn a_health_probe_reads_the_status_line() {
    let healthy = b"HTTP/1.1 200 OK\r\nx";
    for at in 1..healthy.len() {
        assert_eq!(verdict(&[&healthy[..at], &healthy[at..]]), Ok(()), "{at}");
    }
    assert_eq!(verdict(&[b"HTTP/1.1 20"]), Err("more".to_string()));
    assert_eq!(verdict(&[b""]), Err("/healthz closed after 0 bytes".to_string()));
    assert_eq!(verdict(&[b"HTTP/1.1", b""]), Err("/healthz closed after 8 bytes".to_string()));
    assert_eq!(
        verdict(&[b"HTTP/1.1 503 Busy\r\n"]),
        Err("/healthz answered: HTTP/1.1 503 Busy".to_string())
    );
    assert_eq!(
        verdict(&[b" \xffxxxxxxxxxxxx\n"]),
        Err("/healthz answered: \u{fffd}xxxxxxxxxxxx".to_string())
    );
    assert_eq!(unhealthy("\t x y \n"), "/healthz answered: x y");
    assert_eq!(
        HEALTHCHECK_REQUEST,
        "GET /healthz HTTP/1.1\r\nHost: localhost\r\nConnection: close\r\n\r\n"
    );
}

#[test]
fn a_health_probe_has_room_for_one_line() {
    let mut probe = Healthcheck::new();
    assert_eq!(probe.room(), 64);
    probe.on_read(b"HTTP");
    assert_eq!(probe.room(), 60);
}
