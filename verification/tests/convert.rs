use llm_relay::convert::{has_nested_string, top_level_str, write_json_string, MAX_DEPTH};
use serde_json::Value;

#[test]
fn json_strings_escape_what_would_break_out_of_the_quotes() {
    // Upstream error text lands inside an envelope this crate composes, so
    // a quote or a control byte in it must not be able to end the string
    // early and inject structure.
    let mut out = String::new();
    write_json_string(&mut out, "he said \"hi\"\\ and\nstopped\u{1}");
    assert_eq!(out, r#""he said \"hi\"\\ and\nstopped\u0001""#);
    let parsed: Value = serde_json::from_str(&out).unwrap();
    assert_eq!(parsed, "he said \"hi\"\\ and\nstopped\u{1}");
}

#[test]
fn nested_string_detects_the_openai_error_shape() {
    assert!(has_nested_string(
        br#"{"error":{"message":"bad","code":null}}"#,
        b"error",
        b"message"
    ));
    // Present but not a string, absent, and not nested under `error`.
    assert!(!has_nested_string(br#"{"error":{"message":7}}"#, b"error", b"message"));
    assert!(!has_nested_string(br#"{"error":{"code":1}}"#, b"error", b"message"));
    assert!(!has_nested_string(br#"{"message":"bad"}"#, b"error", b"message"));
    assert!(!has_nested_string(b"not json", b"error", b"message"));
}

#[test]
fn top_level_str_reads_only_the_top_level() {
    let frame = br#"{"id":"cmpl-1","choices":[{"delta":{"tool_calls":[{"id":"call-9"}]}}]}"#;
    assert_eq!(top_level_str(frame, b"id"), Some("cmpl-1"));

    // The nested id must not be mistaken for the completion's when the
    // top level has none.
    let no_id = br#"{"choices":[{"delta":{"tool_calls":[{"id":"call-9"}]}}]}"#;
    assert_eq!(top_level_str(no_id, b"id"), None);
}

#[test]
fn top_level_str_reads_a_real_upstream_frame() {
    // A chunk as the upstream actually sends it, keys in its own order.
    let frame = br#"{"id":"router-18dc9bf3","object":"chat.completion.chunk","created":1787106976,"model":"deepseek-v4-flash-free","choices":[{"index":0,"finish_reason":null,"logprobs":null,"delta":{"role":"assistant","content":"","reasoning_content":null}}]}"#;
    assert_eq!(top_level_str(frame, b"id"), Some("router-18dc9bf3"));
    assert_eq!(top_level_str(frame, b"model"), Some("deepseek-v4-flash-free"));
}

#[test]
fn top_level_str_declines_what_it_cannot_return_verbatim() {
    // Not a string.
    assert_eq!(top_level_str(br#"{"id":7}"#, b"id"), None);
    // Escaped: returning the raw span would hand back the escape sequence.
    assert_eq!(top_level_str(br#"{"id":"a\/b"}"#, b"id"), None);
    // Not an object, and truncated input.
    assert_eq!(top_level_str(b"[1]", b"id"), None);
    assert_eq!(top_level_str(br#"{"id":"unterminated"#, b"id"), None);
}

#[test]
fn top_level_str_gives_up_past_max_depth() {
    // The recursion guard: a payload nested past `MAX_DEPTH` is declined
    // rather than walked, so an adversarial body cannot drive the stack.
    let depth = MAX_DEPTH + 8;
    let mut raw = String::from(r#"{"deep":"#);
    raw.push_str(&"[".repeat(depth));
    raw.push('1');
    raw.push_str(&"]".repeat(depth));
    raw.push_str(r#","id":"x"}"#);
    assert_eq!(top_level_str(raw.as_bytes(), b"id"), None);
}

#[test]
fn nesting_up_to_the_limit_is_read() {
    for (depth, found) in [(MAX_DEPTH, Some("x")), (MAX_DEPTH + 1, None)] {
        let mut raw = String::from(r#"{"deep":"#);
        raw.push_str(&"[".repeat(depth));
        raw.push_str(&"]".repeat(depth));
        raw.push_str(r#","id":"x"}"#);
        assert_eq!(top_level_str(raw.as_bytes(), b"id"), found, "{depth}");
    }
}

#[test]
fn white_space_numbers_and_literals_are_stepped_over() {
    let raw = b" \r\n\t{ \"a\" : -1.5e+3 ,\"b\":true, \"c\" :false,\"d\":null,\"e\":{\"id\":\"no\"} , \"id\"\t:\n\"yes\" }";
    assert_eq!(top_level_str(raw, b"id"), Some("yes"));
    assert_eq!(top_level_str(raw, b"b"), None);
    assert_eq!(top_level_str(raw, b"missing"), None);
}

#[test]
fn the_first_of_two_members_with_one_key_counts() {
    assert_eq!(top_level_str(br#"{"id":"one","id":"two"}"#, b"id"), Some("one"));
}

#[test]
fn a_quote_behind_a_backslash_does_not_end_a_string() {
    let raw = br#"{"x":"a\"b\\","id":"ok"}"#;
    assert_eq!(top_level_str(raw, b"id"), Some("ok"));
    assert_eq!(top_level_str(raw, b"x"), None);
}

#[test]
fn bytes_that_are_not_utf8_are_declined() {
    assert_eq!(top_level_str(b"{\"id\":\"\xff\"}", b"id"), None);
    assert_eq!(top_level_str("{\"id\":\"h\u{e9}\u{1f600}\"}".as_bytes(), b"id"), Some("h\u{e9}\u{1f600}"));
}

#[test]
fn garbage_between_members_stops_the_search() {
    assert_eq!(top_level_str(br#"{"a":1 x "id":"y"}"#, b"id"), None);
    assert_eq!(top_level_str(br#"{"a" 1,"id":"y"}"#, b"id"), None);
    assert_eq!(top_level_str(b"", b"id"), None);
    assert_eq!(top_level_str(b"{", b"id"), None);
}

#[test]
fn every_escape_reads_back() {
    let all: String = (0u32..0x180).filter_map(char::from_u32).chain(['\u{2028}', '\u{1f600}']).collect();
    let mut out = String::new();
    write_json_string(&mut out, &all);
    let parsed: Value = serde_json::from_str(&out).unwrap();
    assert_eq!(parsed, all.as_str());
    assert!(out.bytes().all(|b| b >= 0x20));
}

#[test]
fn short_escapes_are_used_where_there_are_any() {
    let mut out = String::from("x");
    write_json_string(&mut out, "\u{8}\u{c}\t\r\n\u{1f}/");
    assert_eq!(out, "x\"\\b\\f\\t\\r\\n\\u001f/\"");
}

#[test]
fn a_written_member_reads_back_as_it_is() {
    let mut raw = String::from("{\"a\":7,\"name\":");
    write_json_string(&mut raw, "plain text, \u{e9}");
    raw.push('}');
    assert_eq!(top_level_str(raw.as_bytes(), b"name"), Some("plain text, \u{e9}"));
}

#[test]
fn only_numbers_count_as_numbers() {
    for number in [
        "0", "-0", "7", "10", "-12", "0.5", "1.25", "1e5", "1E+5", "-1.5e-10", "0e0",
    ] {
        let raw = format!("{{\"n\":{number},\"id\":\"x\"}}");
        assert_eq!(top_level_str(raw.as_bytes(), b"id"), Some("x"), "{number}");
    }
    for number in [
        "-", "01", "-01", "1.", ".5", "1.e5", "1e", "1e+", "+1", "1-2", "--1", "1.2.3", "1e5e5", "1e5.0",
        "-.5", "e5",
    ] {
        let raw = format!("{{\"n\":{number},\"id\":\"x\"}}");
        assert_eq!(top_level_str(raw.as_bytes(), b"id"), None, "{number}");
    }
}

#[test]
fn bytes_behind_a_found_string_do_not_matter() {
    let found = r#"{"a":[1],"id":"x""#;
    for tail in ["", "}", ",\"id\":\"y\"}", " garbage", "\""] {
        let raw = format!("{found}{tail}");
        assert_eq!(top_level_str(raw.as_bytes(), b"id"), Some("x"), "{tail}");
    }
}
