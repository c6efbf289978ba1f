use llm_relay::config::{Config, Endpoint};
use llm_relay::egress::{
    egress, probe, probe_answer, probe_request, write_member, Probed, V4_PROBE, V6_PROBE,
};
use serde_json::Value;

/// The envelope is composed by hand around a failure string that came from
/// the network, so it has to survive a hostile one.
#[test]
fn a_probe_failure_cannot_break_out_of_the_envelope() {
    let mut out = String::from("{");
    write_member(&mut out, "ipv4", &Ok("203.0.113.9".to_string()));
    out.push(',');
    write_member(
        &mut out,
        "ipv6",
        &Err(r#"","injected":{"x":"#.to_string()),
    );
    out.push('}');

    let v: Value = serde_json::from_str(&out).expect("valid JSON");
    assert_eq!(v["ipv4"], "203.0.113.9");
    assert!(v["ipv4_error"].is_null());
    assert!(v["ipv6"].is_null());
    assert_eq!(v["ipv6_error"], r#"","injected":{"x":"#);
    assert!(v.get("injected").is_none(), "injected member appeared");
}

fn config() -> Config {
    match Config::new(None, None, None) {
        Ok(cfg) => cfg,
        Err(e) => panic!("{}", e.message()),
    }
}

fn endpoint(shown: &str) -> Endpoint {
    Endpoint { text: shown.to_string(), shown: shown.to_string(), host: None }
}

#[test]
fn a_report_says_what_the_probes_said() {
    let reply = egress(&config(), &Ok("203.0.113.9".to_string()), &Err("no \"route\"".to_string()));
    assert_eq!(reply.status, 200);
    assert_eq!(
        &reply.body[..],
        br#"{"ipv4":"203.0.113.9","ipv4_error":null,"ipv6":null,"ipv6_error":"no \"route\"","upstream_host":"opencode.ai"}"#
    );
    assert_eq!(reply.headers["content-type"], "application/json; charset=utf-8");
    assert_eq!(reply.headers.len(), 1);
}

#[test]
fn a_report_without_any_address_is_a_bad_gateway() {
    let reply = egress(&config(), &Err("a".to_string()), &Err("b".to_string()));
    assert_eq!(reply.status, 502);
    let reply = egress(&config(), &Err("a".to_string()), &Ok("::1".to_string()));
    assert_eq!(reply.status, 200);
}

#[test]
fn a_config_without_a_host_reports_an_empty_one() {
    let mut cfg = config();
    cfg.upstream.host = None;
    let reply = egress(&cfg, &Err("a".to_string()), &Err("b".to_string()));
    let v: Value = serde_json::from_slice(&reply.body).unwrap();
    assert_eq!(v["upstream_host"], "");
    assert_eq!(v.as_object().unwrap().len(), 5);
}

#[test]
fn a_probe_answer_is_trimmed_text_from_a_success() {
    assert_eq!(probe_answer(200, b" 203.0.113.9\n"), Ok("203.0.113.9".to_string()));
    assert_eq!(probe_answer(299, b"x"), Ok("x".to_string()));
    assert_eq!(probe_answer(404, b"x"), Err("probe answered 404 Not Found".to_string()));
    assert_eq!(probe_answer(300, b"x"), Err("probe answered 300 Multiple Choices".to_string()));
    assert_eq!(probe_answer(199, b"x"), Err("probe answered 199 <unknown status code>".to_string()));
    assert_eq!(
        probe_answer(200, b"a\xff"),
        Err("invalid utf-8 sequence of 1 bytes from index 1".to_string())
    );
}

#[test]
fn a_probe_reports_its_own_family_only() {
    let uri = endpoint("https://probe.test/");
    let v4 = || Probed::Address { ip: "203.0.113.9".to_string(), is_v4: true };
    let v6 = || Probed::Address { ip: "2001:db8::1".to_string(), is_v4: false };
    assert_eq!(probe(&uri, true, v4()), Ok("203.0.113.9".to_string()));
    assert_eq!(probe(&uri, false, v6()), Ok("2001:db8::1".to_string()));
    assert_eq!(
        probe(&uri, true, v6()),
        Err("https://probe.test/ answered 2001:db8::1, which is not IPv4".to_string())
    );
    assert_eq!(
        probe(&uri, false, v4()),
        Err("https://probe.test/ answered 203.0.113.9, which is not IPv6".to_string())
    );
    assert_eq!(probe(&uri, true, Probed::TimedOut), Err("IPv4 probe timed out after 4s".to_string()));
    assert_eq!(probe(&uri, false, Probed::TimedOut), Err("IPv6 probe timed out after 4s".to_string()));
    assert_eq!(probe(&uri, false, Probed::Failed("dns".to_string())), Err("dns".to_string()));
}

#[test]
fn a_probe_asks_under_its_own_name() {
    let request = probe_request(&config().egress_v6);
    assert_eq!(request.method, llm_relay::request::Method::Get);
    assert_eq!(request.uri, V6_PROBE);
    assert_eq!(request.headers["user-agent"], "llm-relay/egress");
    assert_eq!(request.headers.len(), 1);
    assert!(request.body.is_empty());
    assert_eq!(config().egress_v4.text, V4_PROBE);
}
