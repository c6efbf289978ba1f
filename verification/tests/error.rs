use llm_relay::error::{error_type, normalize_error_body, openai_error_body, truncate, wrap_error_text};
use serde_json::Value;

#[test]
fn wraps_non_openai_error_bodies_in_the_error_shape() {
    let wrapped = normalize_error_body(b"the upstream exploded", 502);
    let v: Value = serde_json::from_slice(&wrapped).unwrap();
    assert_eq!(v["error"]["type"], "server_error");
    assert_eq!(v["error"]["message"], "the upstream exploded");
}

#[test]
fn openai_shaped_errors_pass_through_untouched() {
    let openai = br#"{"error":{"message":"bad","type":"invalid_request_error","param":"x","code":null,"extra":1}}"#;
    let out = normalize_error_body(openai, 400);
    assert_eq!(out, openai);
}

#[test]
fn an_oversized_body_maps_to_invalid_request_error() {
    // 413 is not in OpenAI's own status map, but it is a request problem,
    // so the fallthrough `api_error` would mislead a strict client.
    let wrapped = normalize_error_body(b"too big", 413);
    let v: Value = serde_json::from_slice(&wrapped).unwrap();
    assert_eq!(v["error"]["type"], "invalid_request_error");
}

#[test]
fn rate_limit_status_maps_to_rate_limit_error() {
    let wrapped = normalize_error_body(b"slow down", 429);
    let v: Value = serde_json::from_slice(&wrapped).unwrap();
    assert_eq!(v["error"]["type"], "rate_limit_error");
}

#[test]
fn a_hostile_upstream_body_cannot_break_out_of_the_envelope() {
    // The upstream body is untrusted text spliced into an envelope this
    // crate composes by hand. A body full of quotes and braces must come
    // back as one JSON string, not as injected structure.
    let hostile = br#"","type":"injected","x":{"y":"#;
    let wrapped = normalize_error_body(hostile, 502);
    let v: Value = serde_json::from_slice(&wrapped).unwrap();
    assert_eq!(v["error"]["type"], "server_error");
    assert_eq!(v["error"]["message"], r#"","type":"injected","x":{"y":"#);
    assert!(v["error"].get("x").is_none(), "injected member appeared");
}

#[test]
fn control_bytes_in_an_error_body_stay_inside_the_string() {
    let wrapped = normalize_error_body(b"line1\nline2\ttab\x01ctl", 500);
    let v: Value = serde_json::from_slice(&wrapped).unwrap();
    assert_eq!(v["error"]["message"], "line1\nline2\ttab\u{1}ctl");
}

#[test]
fn long_error_bodies_are_truncated() {
    let long = "x".repeat(2000);
    let wrapped = normalize_error_body(long.as_bytes(), 502);
    let v: Value = serde_json::from_slice(&wrapped).unwrap();
    let msg = v["error"]["message"].as_str().unwrap();
    assert!(msg.ends_with('…'));
    assert!(msg.chars().count() <= 501);
}

#[test]
fn every_status_has_its_type() {
    for (status, kind) in [
        (400, "invalid_request_error"),
        (401, "authentication_error"),
        (403, "permission_error"),
        (404, "not_found_error"),
        (413, "invalid_request_error"),
        (422, "invalid_request_error"),
        (429, "rate_limit_error"),
        (500, "server_error"),
        (503, "server_error"),
        (599, "server_error"),
        (418, "api_error"),
        (600, "api_error"),
    ] {
        assert_eq!(error_type(status), kind, "{status}");
    }
}

#[test]
fn an_envelope_is_written_out_exactly() {
    assert_eq!(
        openai_error_body(404, "no \"x\""),
        br#"{"error":{"message":"no \"x\"","type":"not_found_error","param":null,"code":null}}"#.to_vec()
    );
}

#[test]
fn truncation_counts_characters_and_marks_the_cut() {
    assert_eq!(truncate("h\u{e9}llo", 5), "h\u{e9}llo");
    assert_eq!(truncate("h\u{e9}llo!", 5), "h\u{e9}llo…");
    assert_eq!(truncate("", 0), "");
    assert_eq!(truncate("a", 0), "…");
}

#[test]
fn bytes_that_are_not_text_are_shown_with_replacement_characters() {
    let wrapped = normalize_error_body(b"bad \xff byte", 502);
    let v: Value = serde_json::from_slice(&wrapped).unwrap();
    assert_eq!(v["error"]["message"], "bad \u{fffd} byte");
}

#[test]
fn foreign_text_is_wrapped_and_cut() {
    let v: Value = serde_json::from_slice(&wrap_error_text(&"y".repeat(501), 500)).unwrap();
    let mut want = "y".repeat(500);
    want.push('…');
    assert_eq!(v["error"]["message"], want.as_str());
}

#[test]
fn normalizing_twice_changes_nothing_more() {
    let once = normalize_error_body(b"\"},{\"error\":{\"message\":", 500);
    assert_eq!(normalize_error_body(&once, 404), once);
}
