use llm_relay::sse::{sse_payload, truncation_frame, RelayState, RelayStep};
use serde_json::Value;

/// Drive the relay over a scripted upstream: `Ok` items are body
/// chunks (the split points are deliberate), `Err` is a stream failure.
fn relayed(parts: Vec<Result<&'static [u8], &'static str>>) -> Vec<String> {
    let mut state = RelayState::new("test-model");
    let mut parts = parts.into_iter();
    let mut out = Vec::new();
    loop {
        let frame = match state.poll() {
            RelayStep::End => break,
            RelayStep::Emit(frame) => Some(frame),
            RelayStep::Read => match parts.next() {
                Some(Ok(chunk)) => {
                    assert!(state.fits(chunk.len()));
                    state.on_data(chunk);
                    None
                }
                Some(Err(cause)) => Some(state.on_error(cause)),
                None => state.on_end(),
            },
        };
        if let Some(frame) = frame {
            out.push(String::from_utf8(frame.to_vec()).expect("utf8"));
        }
    }
    out
}

#[test]
fn frames_are_relayed_byte_for_byte_however_the_chunks_fall() {
    // The upstream may split anywhere, including inside the `\n\n` that
    // ends a frame. Reassembly must not depend on where the split landed.
    let whole = relayed(vec![Ok(b"data: {\"id\":\"a\"}\n\ndata: [DONE]\n\n")]);
    let straddled = relayed(vec![
        Ok(b"data: {\"id\":"),
        Ok(b"\"a\"}\n"),
        Ok(b"\ndata: [DON"),
        Ok(b"E]\n\n"),
    ]);
    assert_eq!(whole, vec!["data: {\"id\":\"a\"}\n\n", "data: [DONE]\n\n"]);
    assert_eq!(whole, straddled);
}

#[test]
fn relay_stops_at_done_and_drops_the_trailing_cost_frame() {
    // The upstream emits `{"choices":[],"cost":"0"}` after [DONE]; every
    // OpenAI client stops at the terminator, so the frame must not be relayed.
    let out = relayed(vec![Ok(
        b"data: {\"id\":\"a\"}\n\ndata: [DONE]\n\ndata: {\"choices\":[],\"cost\":\"0\"}\n\n",
    )]);
    assert_eq!(out, vec!["data: {\"id\":\"a\"}\n\n", "data: [DONE]\n\n"]);
}

#[test]
fn a_clean_end_without_done_still_gets_the_terminator() {
    let out = relayed(vec![Ok(b"data: {\"id\":\"a\"}\n\n")]);
    assert_eq!(out.last().unwrap(), "data: [DONE]\n\n");
}

#[test]
fn a_stream_cut_mid_frame_ends_on_a_truncation_never_on_done() {
    let out = relayed(vec![
        Ok(b"data: {\"id\":\"router-1\"}\n\n"),
        Ok(b"data: {\"id\":\"router-1\",\"cho"),
    ]);
    let last = out.last().expect("a frame");
    assert!(!last.contains("[DONE]"), "{last}");
    let payload = last.strip_prefix("data: ").unwrap().trim_end();
    let v: Value = serde_json::from_str(payload).expect("valid JSON");
    // The truncation frame names the stream it belongs to and why it ended.
    assert_eq!(v["id"], "router-1");
    assert_eq!(v["model"], "test-model");
    assert_eq!(v["choices"][0]["finish_reason"], "length");
    assert_eq!(v["error"]["message"], "upstream stream failed: closed mid-frame");
}

#[test]
fn a_failing_stream_reports_the_cause_in_band() {
    let out = relayed(vec![
        Ok(b"data: {\"id\":\"router-2\"}\n\n"),
        Err("connection reset"),
    ]);
    let payload = out.last().unwrap().strip_prefix("data: ").unwrap().trim_end();
    let v: Value = serde_json::from_str(payload).expect("valid JSON");
    assert_eq!(v["id"], "router-2");
    assert_eq!(v["error"]["message"], "upstream stream failed: connection reset");
}

#[test]
fn comments_and_non_data_events_pass_through_untouched() {
    let out = relayed(vec![Ok(b": ping\n\nevent: open\n\ndata: [DONE]\n\n")]);
    assert_eq!(out, vec![": ping\n\n", "event: open\n\n", "data: [DONE]\n\n"]);
}

#[test]
fn a_tool_call_id_is_never_mistaken_for_the_stream_id() {
    // The truncation frame must carry the completion's id, not one dug out
    // of a nested tool call.
    let out = relayed(vec![
        Ok(b"data: {\"choices\":[{\"delta\":{\"tool_calls\":[{\"id\":\"call-9\"}]}}]}\n\n"),
        Ok(b"data: partial"),
    ]);
    let payload = out.last().unwrap().strip_prefix("data: ").unwrap().trim_end();
    let v: Value = serde_json::from_str(payload).unwrap();
    assert_eq!(v["id"], "llm-relay-0");
}

#[test]
fn every_split_of_a_stream_comes_to_the_same() {
    const STREAM: &[u8] =
        b": hi\n\ndata: {\"id\":\"a\"}\n\n\n\n\ndata: x\n\ndata: [DONE]\n\ndata: late\n\n";
    let whole = relayed(vec![Ok(STREAM)]);
    assert_eq!(
        whole,
        vec![": hi\n\n", "data: {\"id\":\"a\"}\n\n", "\n\n", "\ndata: x\n\n", "data: [DONE]\n\n"]
    );
    for at in 0..=STREAM.len() {
        assert_eq!(relayed(vec![Ok(&STREAM[..at]), Ok(&STREAM[at..])]), whole, "{at}");
    }
    let bytes: Vec<Result<&'static [u8], &'static str>> = STREAM.chunks(1).map(Ok).collect();
    assert_eq!(relayed(bytes), whole);
}

#[test]
fn nothing_is_lost_and_nothing_is_added_before_the_end() {
    const STREAM: &[u8] = b"data: a\n\nevent: e\ndata: b\n\ndata: tail";
    let out = relayed(vec![Ok(STREAM), Err("gone")]);
    assert_eq!(out.len(), 3);
    assert_eq!(out[..2].concat().as_bytes(), &STREAM[..STREAM.len() - 10]);
}

#[test]
fn a_stream_that_fails_before_its_first_byte_is_a_truncation() {
    let out = relayed(vec![Err("refused")]);
    assert_eq!(
        out,
        vec![
            "data: {\"id\":\"llm-relay-0\",\"object\":\"chat.completion.chunk\",\"model\":\"test-model\",\"choices\":[{\"index\":0,\"delta\":{},\"finish_reason\":\"length\"}],\"error\":{\"message\":\"upstream stream failed: refused\"}}\n\n"
        ]
    );
}

#[test]
fn an_empty_stream_gets_the_terminator() {
    assert_eq!(relayed(vec![]), vec!["data: [DONE]\n\n"]);
}

#[test]
fn a_done_frame_in_another_spelling_ends_the_stream_as_it_came() {
    let out = relayed(vec![Ok(b"data:[DONE]\n\n")]);
    assert_eq!(out, vec!["data:[DONE]\n\n"]);
    let out = relayed(vec![Ok(b"\r\ndata:[DONE]  \r\n\n\ndata: more\n\n")]);
    assert_eq!(out, vec!["\r\ndata:[DONE]  \r\n\n"]);
}

#[test]
fn a_truncation_frame_is_one_frame_whatever_it_is_told() {
    let hostile = "\n\n\"},\ndata: [DONE]\n\n";
    let frame = truncation_frame(Some(hostile), hostile, hostile);
    let text = String::from_utf8(frame.to_vec()).unwrap();
    assert_eq!(text.find("\n\n"), Some(text.len() - 2));
    let payload = sse_payload(&frame).expect("a data frame");
    let v: Value = serde_json::from_slice(payload).expect("valid JSON");
    assert_eq!(v["id"], hostile);
    assert_eq!(v["model"], hostile);
    assert_eq!(v["error"]["message"], format!("upstream stream failed: {hostile}").as_str());
    assert_eq!(v.as_object().unwrap().len(), 5);
}

#[test]
fn the_payload_of_a_frame_is_trimmed() {
    assert_eq!(sse_payload(b" \tdata: \x0c x y \r\n\n"), Some(&b"x y"[..]));
    assert_eq!(sse_payload(b"data:"), Some(&b""[..]));
    assert_eq!(sse_payload(b": data: x"), None);
    assert_eq!(sse_payload(b"event: x"), None);
    assert_eq!(sse_payload(b"dat"), None);
    assert_eq!(sse_payload(b""), None);
}

#[test]
fn the_first_frame_with_an_id_names_the_stream() {
    let out = relayed(vec![
        Ok(b"data: {\"x\":1}\n\ndata: {\"id\":\"one\"}\n\ndata: {\"id\":\"two\"}\n\n"),
        Err("cut"),
    ]);
    let payload = out.last().unwrap().strip_prefix("data: ").unwrap().trim_end();
    let v: Value = serde_json::from_str(payload).unwrap();
    assert_eq!(v["id"], "one");
}

#[test]
fn a_finished_relay_stays_finished() {
    let mut state = RelayState::new("m");
    state.on_data(b"data: [DONE]\n\n");
    assert!(matches!(state.poll(), RelayStep::Emit(_)));
    assert!(matches!(state.poll(), RelayStep::End));
    assert!(matches!(state.poll(), RelayStep::End));
    // Too much to take in is said so.
    assert!(!state.fits(usize::MAX));
}
