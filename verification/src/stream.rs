//! What the client gets of a whole event stream. Frames come back byte for byte, however
//! the upstream cut them into chunks; `[DONE]` ends the stream; a stream that breaks ends
//! on a truncation frame that says why, and never on `[DONE]`.

use vstd::prelude::*;
use vstd::utf8::*;

use crate::convert;
use crate::object;
use crate::sse;
use crate::text;

verus! {

// ---------------------------------------------------------------------------
// A stream, as the relay plays it
// ---------------------------------------------------------------------------

/// How the upstream side of a stream comes to its end.
pub enum Ending {
    /// It is over.
    Ended,
    /// It failed, for this reason.
    Failed(Seq<char>),
}

/// All that can be handed out before more has to be read, and the state after that.
pub open spec fn drain(v: sse::RelayView) -> (sse::RelayView, Seq<Seq<u8>>)
    decreases v.pending.len(),
{
    proof {
        sse::lemma_frame_end_inv(v.pending, 0);
    }
    match sse::step(v).1 {
        sse::StepView::Emit(out) => {
            let (last, outs) = drain(sse::step(v).0);
            (last, seq![out] + outs)
        },
        _ => (v, seq![]),
    }
}

/// What is handed out while chunks come in, and the state after that: the relay reads a
/// chunk only when it has no frame left and is not finished.
pub open spec fn play(v: sse::RelayView, chunks: Seq<Seq<u8>>) -> (sse::RelayView, Seq<Seq<u8>>)
    decreases chunks.len(),
{
    let (w, outs) = drain(v);
    if w.finished || chunks.len() == 0 {
        (w, outs)
    } else {
        let (last, more) = play(sse::with_data(w, chunks.first()), chunks.drop_first());
        (last, outs + more)
    }
}

/// All that the client gets of a stream that comes in these chunks and ends so.
pub open spec fn relayed(model: Seq<char>, chunks: Seq<Seq<u8>>, ending: Ending) -> Seq<Seq<u8>> {
    let (w, outs) = play(sse::fresh(model), chunks);
    if w.finished {
        outs
    } else {
        match ending {
            Ending::Failed(cause) => outs.push(sse::truncation(w, cause)),
            Ending::Ended => match sse::at_end(w) {
                Some(out) => outs.push(out),
                None => outs,
            },
        }
    }
}

// ---------------------------------------------------------------------------
// A stream, frame by frame
// ---------------------------------------------------------------------------

/// The frames that a text is made of, and the tail that no frame ends.
pub open spec fn split(s: Seq<u8>) -> (Seq<Seq<u8>>, Seq<u8>)
    decreases s.len(),
{
    proof {
        sse::lemma_frame_end_inv(s, 0);
    }
    match sse::frame_end(s, 0) {
        Some(end) => {
            let (frames, tail) = split(s.skip(end));
            (seq![s.take(end)] + frames, tail)
        },
        None => (seq![], s),
    }
}

/// Whether a frame is the one that ends a stream.
pub open spec fn is_done(frame: Seq<u8>) -> bool {
    sse::payload_of(frame) == Some(encode_utf8("[DONE]"@))
}

/// The place of the first frame that ends a stream.
pub open spec fn done_at(frames: Seq<Seq<u8>>) -> Option<int>
    decreases frames.len(),
{
    if frames.len() == 0 {
        None
    } else if is_done(frames.first()) {
        Some(0)
    } else {
        match done_at(frames.drop_first()) {
            Some(k) => Some(k + 1),
            None => None,
        }
    }
}

/// The id of a stream, from the id known so far and the frames that follow: the first
/// data frame with a top-level id gives it.
pub open spec fn named(id: Option<Seq<char>>, frames: Seq<Seq<u8>>) -> Option<Seq<char>>
    decreases frames.len(),
{
    if frames.len() == 0 || id is Some {
        id
    } else {
        let next = match sse::payload_of(frames.first()) {
            Some(payload) => convert::top_level_text(payload, encode_utf8("id"@)),
            None => None,
        };
        named(next, frames.drop_first())
    }
}

/// The frame that is put behind a stream without `[DONE]`.
pub open spec fn closing(
    id: Option<Seq<char>>,
    model: Seq<char>,
    tail: Seq<u8>,
    ending: Ending,
) -> Seq<u8> {
    match ending {
        Ending::Failed(cause) => encode_utf8(sse::truncation_text(id, model, cause)),
        Ending::Ended => if tail.len() > 0 {
            encode_utf8(sse::truncation_text(id, model, sse::CUT_SHORT@))
        } else {
            encode_utf8(sse::DONE_FRAME@)
        },
    }
}

/// What the client is to get of a stream, stated over all of its bytes: every frame up to
/// and with `[DONE]` as it came in; or, where there is no `[DONE]`, every frame and the
/// one that closes the stream.
pub open spec fn answer(model: Seq<char>, input: Seq<u8>, ending: Ending) -> Seq<Seq<u8>> {
    let (frames, tail) = split(input);
    match done_at(frames) {
        Some(k) => frames.take(k + 1),
        None => frames.push(closing(named(None, frames), model, tail, ending)),
    }
}

/// The first frame stays where it is when more comes in behind it.
proof fn lemma_frame_stays(s: Seq<u8>, d: Seq<u8>)
    ensures
        sse::frame_end(s, 0) matches Some(end) ==> {
            &&& 2 <= end <= s.len()
            &&& sse::frame_end(s + d, 0) == Some(end)
            &&& (s + d).take(end) == s.take(end)
            &&& (s + d).skip(end) == s.skip(end) + d
        },
{
    sse::lemma_frame_end_inv(s, 0);
    match sse::frame_end(s, 0) {
        Some(end) => {
            assert(sse::boundary_at(s + d, end - 2));
            assert forall|k: int| 0 <= k < end - 2 implies !#[trigger] sse::boundary_at(
                s + d,
                k,
            ) by {
                assert(!sse::boundary_at(s, k));
            }
            sse::lemma_frame_end(s + d, 0, end - 2);
            assert((s + d).take(end) =~= s.take(end));
            assert((s + d).skip(end) =~= s.skip(end) + d);
        },
        None => {},
    }
}

/// What comes in later does not change what was handed out before.
proof fn lemma_drain_with_data(v: sse::RelayView, d: Seq<u8>)
    requires
        !v.finished,
    ensures
        ({
            let (w, outs) = drain(v);
            if w.finished {
                drain(sse::with_data(v, d)) == (w, outs)
            } else {
                let (last, more) = drain(sse::with_data(w, d));
                drain(sse::with_data(v, d)) == (last, outs + more)
            }
        }),
    decreases v.pending.len(),
{
    lemma_frame_stays(v.pending, d);
    let vd = sse::with_data(v, d);
    match sse::frame_end(v.pending, 0) {
        Some(end) => {
            let next = sse::step(v).0;
            let out = sse::step(v).1->Emit_0;
            if next.finished {
                assert(drain(next) == (next, Seq::<Seq<u8>>::empty()));
                assert(sse::step(vd) == sse::step(v));
            } else {
                assert(sse::step(vd) == (sse::with_data(next, d), sse::StepView::Emit(out)));
                lemma_drain_with_data(next, d);
                let (w, outs) = drain(next);
                if !w.finished {
                    let more = drain(sse::with_data(w, d)).1;
                    assert(seq![out] + (outs + more) =~= (seq![out] + outs) + more);
                }
            }
        },
        None => {
            assert(drain(v) == (v, Seq::<Seq<u8>>::empty()));
            let more = drain(vd).1;
            assert(Seq::<Seq<u8>>::empty() + more =~= more);
        },
    }
}

/// Chunks come to the same as all of their bytes at once.
proof fn lemma_play(v: sse::RelayView, chunks: Seq<Seq<u8>>)
    requires
        !v.finished,
    ensures
        play(v, chunks) == drain(sse::with_data(v, chunks.flatten())),
    decreases chunks.len(),
{
    let (w, outs) = drain(v);
    lemma_drain_with_data(v, chunks.flatten());
    if chunks.len() == 0 {
        assert(v.pending + chunks.flatten() =~= v.pending);
    } else if !w.finished {
        let first = chunks.first();
        let rest = chunks.drop_first();
        let x = sse::with_data(w, first);
        lemma_play(x, rest);
        assert(w.pending + first + rest.flatten() =~= w.pending + chunks.flatten());
        assert(sse::with_data(x, rest.flatten()) == sse::with_data(w, chunks.flatten()));
    }
}

/// Handing out what is there is going through it frame by frame.
proof fn lemma_drain(v: sse::RelayView)
    requires
        !v.finished,
    ensures
        ({
            let (frames, tail) = split(v.pending);
            match done_at(frames) {
                Some(k) => 0 <= k < frames.len() && drain(v).0.finished && drain(v).1
                    == frames.take(k + 1),
                None => drain(v) == (
                    sse::RelayView {
                        pending: tail,
                        stream_id: named(v.stream_id, frames),
                        ..v
                    },
                    frames,
                ),
            }
        }),
    decreases v.pending.len(),
{
    sse::lemma_frame_end_inv(v.pending, 0);
    let (frames, tail) = split(v.pending);
    match sse::frame_end(v.pending, 0) {
        Some(end) => {
            let frame = v.pending.take(end);
            let rest = v.pending.skip(end);
            let (next, step) = sse::step(v);
            let more = split(rest).0;
            assert(frames.drop_first() =~= more);
            assert(frames.first() == frame);
            if is_done(frame) {
                assert(drain(next) == (next, Seq::<Seq<u8>>::empty()));
                assert(drain(v).1 =~= frames.take(1));
            } else {
                lemma_drain(next);
                match done_at(more) {
                    Some(k) => {
                        assert(seq![frame] + more.take(k + 1) =~= frames.take(k + 2));
                    },
                    None => {
                        assert(named(next.stream_id, more) == named(v.stream_id, frames));
                    },
                }
            }
        },
        None => {},
    }
}

/// The client gets what it is to get, however the stream was cut into chunks: every frame
/// byte for byte, up to and with `[DONE]`, and nothing behind it; where there is no
/// `[DONE]`, every frame byte for byte and one that closes the stream.
pub proof fn law_streams_come_back_frame_by_frame(
    model: Seq<char>,
    chunks: Seq<Seq<u8>>,
    ending: Ending,
)
    ensures
        relayed(model, chunks, ending) == answer(model, chunks.flatten(), ending),
{
    let v = sse::fresh(model);
    let input = chunks.flatten();
    lemma_play(v, chunks);
    let whole = sse::with_data(v, input);
    assert(whole.pending =~= input);
    lemma_drain(whole);
}

/// Where the upstream cut its stream makes no difference to the client.
pub proof fn law_chunks_do_not_matter(
    model: Seq<char>,
    a: Seq<Seq<u8>>,
    b: Seq<Seq<u8>>,
    ending: Ending,
)
    requires
        a.flatten() == b.flatten(),
    ensures
        relayed(model, a, ending) == relayed(model, b, ending),
{
    law_streams_come_back_frame_by_frame(model, a, ending);
    law_streams_come_back_frame_by_frame(model, b, ending);
}

/// Splitting loses and adds nothing: the frames and the tail are the text, each frame ends
/// on its only empty line, and the tail has none.
pub proof fn law_splitting_keeps_every_byte(s: Seq<u8>)
    ensures
        split(s).0.flatten() + split(s).1 == s,
        forall|i: int|
            0 <= i < split(s).0.len() ==> sse::frame_end(#[trigger] split(s).0[i], 0) == Some(
                split(s).0[i].len() as int,
            ),
        sse::frame_end(split(s).1, 0) is None,
    decreases s.len(),
{
    sse::lemma_frame_end_inv(s, 0);
    let (frames, tail) = split(s);
    match sse::frame_end(s, 0) {
        Some(end) => {
            let frame = s.take(end);
            let rest = s.skip(end);
            law_splitting_keeps_every_byte(rest);
            let more = split(rest).0;
            assert(frames.drop_first() =~= more);
            assert(frames.first() == frame);
            assert(frame + rest =~= s);
            assert(frames.flatten() + tail =~= frame + (more.flatten() + tail));
            assert(sse::boundary_at(frame, end - 2));
            assert forall|k: int| 0 <= k < end - 2 implies !#[trigger] sse::boundary_at(
                frame,
                k,
            ) by {
                assert(!sse::boundary_at(s, k));
            }
            sse::lemma_frame_end(frame, 0, end - 2);
            assert forall|i: int| 0 <= i < frames.len() implies sse::frame_end(
                #[trigger] frames[i],
                0,
            ) == Some(frames[i].len() as int) by {
                if i > 0 {
                    assert(frames[i] == more[i - 1]);
                }
            }
        },
        None => {
            assert(frames.flatten() + tail =~= s);
        },
    }
}

/// The frames before a place and those from it on, flattened.
proof fn lemma_flatten_parts(frames: Seq<Seq<u8>>, n: int)
    requires
        0 <= n <= frames.len(),
    ensures
        frames.flatten() == frames.take(n).flatten() + frames.skip(n).flatten(),
    decreases n,
{
    if n == 0 {
        assert(frames.take(0) =~= Seq::empty());
        assert(frames.skip(0) =~= frames);
        assert(frames.flatten() =~= Seq::<u8>::empty() + frames.flatten());
    } else {
        let rest = frames.drop_first();
        lemma_flatten_parts(rest, n - 1);
        assert(frames.take(n).drop_first() =~= rest.take(n - 1));
        assert(frames.take(n).first() == frames.first());
        assert(rest.skip(n - 1) =~= frames.skip(n));
        assert(frames.flatten() =~= frames.take(n).flatten() + frames.skip(n).flatten());
    }
}

/// No byte that comes from upstream is rewritten. Of a stream with `[DONE]`, the client
/// gets a front part of its bytes, through `[DONE]`, and no other byte; of a stream
/// without, all bytes but those of the frame that was not finished, and then the one
/// frame that the relay adds.
pub proof fn law_nothing_is_rewritten(model: Seq<char>, chunks: Seq<Seq<u8>>, ending: Ending)
    ensures
        match done_at(split(chunks.flatten()).0) {
            Some(k) => relayed(model, chunks, ending).flatten().is_prefix_of(chunks.flatten()),
            None => relayed(model, chunks, ending).drop_last().flatten() + split(
                chunks.flatten(),
            ).1 == chunks.flatten(),
        },
{
    let input = chunks.flatten();
    let (frames, tail) = split(input);
    let outs = relayed(model, chunks, ending);
    law_streams_come_back_frame_by_frame(model, chunks, ending);
    law_splitting_keeps_every_byte(input);
    match done_at(frames) {
        Some(k) => {
            lemma_done_at(frames);
            lemma_flatten_parts(frames, k + 1);
            let front = outs.flatten();
            assert(input =~= front + (frames.skip(k + 1).flatten() + tail));
            assert(front =~= input.subrange(0, front.len() as int));
        },
        None => {
            assert(outs.drop_last() =~= frames);
        },
    }
}

// ---------------------------------------------------------------------------
// The truncation frame
// ---------------------------------------------------------------------------

/// The one choice of a truncation frame.
pub open spec fn choice_members() -> Seq<(Seq<char>, Seq<char>)> {
    seq![
        ("index"@, "0"@),
        ("delta"@, object::object_text(seq![])),
        ("finish_reason"@, convert::json_string("length"@)),
    ]
}

/// The choices of a truncation frame.
pub open spec fn choices() -> Seq<char> {
    seq!['['] + object::object_text(choice_members()) + seq![']']
}

/// The `error` object of a truncation frame.
pub open spec fn cause_members(message: Seq<char>) -> Seq<(Seq<char>, Seq<char>)> {
    seq![("message"@, convert::json_string("upstream stream failed: "@ + message))]
}

/// The members of a truncation frame.
pub open spec fn truncation_members(
    id: Seq<char>,
    model: Seq<char>,
    message: Seq<char>,
) -> Seq<(Seq<char>, Seq<char>)> {
    seq![
        ("id"@, convert::json_string(id)),
        ("object"@, convert::json_string("chat.completion.chunk"@)),
        ("model"@, convert::json_string(model)),
        ("choices"@, choices()),
        ("error"@, object::object_text(cause_members(message))),
    ]
}

/// The payload of a truncation frame.
pub open spec fn truncation_payload(
    id: Seq<char>,
    model: Seq<char>,
    message: Seq<char>,
) -> Seq<u8> {
    object::object_bytes(object::encoded(truncation_members(id, model, message)))
}

/// The keys and fixed texts of a truncation frame need no escaping.
proof fn lemma_plain_keys()
    ensures
        object::is_plain("id"@),
        object::is_plain("object"@),
        object::is_plain("model"@),
        object::is_plain("choices"@),
        object::is_plain("error"@),
        object::is_plain("message"@),
        object::is_plain("index"@),
        object::is_plain("delta"@),
        object::is_plain("finish_reason"@),
        object::is_plain("length"@),
        object::is_plain("chat.completion.chunk"@),
{
    reveal_strlit("id");
    reveal_strlit("object");
    reveal_strlit("model");
    reveal_strlit("choices");
    reveal_strlit("error");
    reveal_strlit("message");
    reveal_strlit("index");
    reveal_strlit("delta");
    reveal_strlit("finish_reason");
    reveal_strlit("length");
    reveal_strlit("chat.completion.chunk");
}

/// The text between the model and the cause.
proof fn lemma_middle_text()
    ensures
        ",\"choices\":[{\"index\":0,\"delta\":{},\"finish_reason\":\"length\"}],\"error\":{\"message\":"@
            == seq![','] + convert::json_string("choices"@) + seq![':'] + choices() + seq![',']
            + convert::json_string("error"@) + seq![':'] + seq!['{'] + convert::json_string(
            "message"@,
        ) + seq![':'],
{
    let ms = choice_members();
    lemma_plain_keys();
    object::lemma_plain("choices"@);
    object::lemma_plain("error"@);
    object::lemma_plain("message"@);
    object::lemma_plain("index"@);
    object::lemma_plain("delta"@);
    object::lemma_plain("finish_reason"@);
    object::lemma_plain("length"@);
    object::lemma_first_member(ms);
    assert(ms.drop_first() =~= seq![ms[1], ms[2]]);
    object::lemma_two_members(ms[1], ms[2]);
    reveal_strlit(
        ",\"choices\":[{\"index\":0,\"delta\":{},\"finish_reason\":\"length\"}],\"error\":{\"message\":",
    );
    reveal_strlit("choices");
    reveal_strlit("error");
    reveal_strlit("message");
    reveal_strlit("index");
    reveal_strlit("delta");
    reveal_strlit("finish_reason");
    reveal_strlit("length");
    reveal_strlit("0");
    assert(object::object_text(seq![]) =~= seq!['{', '}']);
    let index = seq!['"'] + "index"@ + seq!['"'] + seq![':'] + "0"@;
    let delta = seq!['"'] + "delta"@ + seq!['"'] + seq![':'] + seq!['{', '}'];
    let reason = seq!['"'] + "finish_reason"@ + seq!['"'] + seq![':'] + (seq!['"'] + "length"@
        + seq!['"']);
    assert(object::member_text(ms[0]) =~= index);
    assert(object::member_text(ms[1]) =~= delta);
    assert(object::member_text(ms[2]) =~= reason);
    assert(choices() =~= seq!['[', '{'] + index + seq![','] + delta + seq![','] + reason + seq![
        '}',
        ']',
    ]);
}

/// The text before the id, the text between the id and the model, and the text at the end.
proof fn lemma_outer_texts()
    ensures
        "data: {\"id\":"@ == "data: "@ + seq!['{'] + convert::json_string("id"@) + seq![':'],
        ",\"object\":\"chat.completion.chunk\",\"model\":"@ == seq![','] + convert::json_string(
            "object"@,
        ) + seq![':'] + convert::json_string("chat.completion.chunk"@) + seq![',']
            + convert::json_string("model"@) + seq![':'],
        "}}\n\n"@ == seq!['}'] + seq!['}'] + "\n\n"@,
{
    lemma_plain_keys();
    object::lemma_plain("id"@);
    object::lemma_plain("object"@);
    object::lemma_plain("model"@);
    object::lemma_plain("chat.completion.chunk"@);
    reveal_strlit("data: {\"id\":");
    reveal_strlit("data: ");
    reveal_strlit("id");
    reveal_strlit(",\"object\":\"chat.completion.chunk\",\"model\":");
    reveal_strlit("object");
    reveal_strlit("chat.completion.chunk");
    reveal_strlit("model");
    reveal_strlit("}}\n\n");
    reveal_strlit("\n\n");
}

/// Two members behind what comes before, piece by piece or each as a whole.
proof fn lemma_two_more(
    p: Seq<char>,
    a: (Seq<char>, Seq<char>),
    b: (Seq<char>, Seq<char>),
)
    ensures
        p + (seq![','] + convert::json_string(a.0) + seq![':'] + a.1 + seq![',']
            + convert::json_string(b.0) + seq![':']) + b.1 == p + seq![','] + object::member_text(a)
            + seq![','] + object::member_text(b),
{
    let k = convert::json_string(a.0);
    let l = convert::json_string(b.0);
    let ma = object::member_text(a);
    let mb = object::member_text(b);
    assert(ma == k + seq![':'] + a.1);
    assert(mb == l + seq![':'] + b.1);
    assert(p + (seq![','] + k + seq![':'] + a.1 + seq![','] + l + seq![':']) + b.1 =~= p + seq![
        ',',
    ] + (k + seq![':'] + a.1) + seq![','] + (l + seq![':'] + b.1));
}

/// An object of one member in the place of the second of two.
proof fn lemma_two_more_nested(
    p: Seq<char>,
    a: (Seq<char>, Seq<char>),
    key: Seq<char>,
    inner: (Seq<char>, Seq<char>),
    end: Seq<char>,
)
    ensures
        p + (seq![','] + convert::json_string(a.0) + seq![':'] + a.1 + seq![',']
            + convert::json_string(key) + seq![':'] + seq!['{'] + convert::json_string(inner.0)
            + seq![':']) + inner.1 + (seq!['}'] + seq!['}'] + end) == p + seq![',']
            + object::member_text(a) + seq![','] + object::member_text(
            (key, object::object_text(seq![inner])),
        ) + seq!['}'] + end,
{
    let k = convert::json_string(a.0);
    let l = convert::json_string(key);
    let n = convert::json_string(inner.0);
    let colon = seq![':'];
    let comma = seq![','];
    let open = seq!['{'];
    let close = seq!['}'];
    let one = n + colon + inner.1;
    assert(object::object_text(seq![inner]) == open + one + close);
    assert(object::member_text((key, object::object_text(seq![inner]))) == l + colon + (open + one
        + close));
    assert(l + colon + open + n + colon + inner.1 + close =~= l + colon + (open + one + close));
    let x = comma + k + colon + a.1 + comma;
    let y = l + colon + open + n + colon;
    assert(comma + k + colon + a.1 + comma + l + colon + open + n + colon =~= x + y);
    assert(p + x =~= p + comma + object::member_text(a) + comma);
    assert(p + (x + y) + inner.1 + (close + close + end) =~= (p + x) + (y + inner.1 + close)
        + close + end);
}

/// A truncation frame is a data line around one object, and an empty line.
proof fn lemma_truncation_text(id: Option<Seq<char>>, model: Seq<char>, message: Seq<char>)
    ensures
        sse::truncation_text(id, model, message) == "data: "@ + object::object_text(
            truncation_members(
                match id {
                    Some(value) => value,
                    None => sse::FALLBACK_ID@,
                },
                model,
                message,
            ),
        ) + "\n\n"@,
{
    let id_text = match id {
        Some(value) => value,
        None => sse::FALLBACK_ID@,
    };
    let ms = truncation_members(id_text, model, message);
    let cs = cause_members(message);
    let start = "data: "@ + seq!['{'];
    let end = "\n\n"@;
    lemma_outer_texts();
    lemma_middle_text();
    assert(start + convert::json_string("id"@) + seq![':'] + ms[0].1 =~= start
        + object::member_text(ms[0]));
    let first = start + object::member_text(ms[0]);
    lemma_two_more(first, ms[1], ms[2]);
    let third = first + seq![','] + object::member_text(ms[1]) + seq![','] + object::member_text(
        ms[2],
    );
    lemma_two_more_nested(third, ms[3], "error"@, cs[0], end);
    object::lemma_five_members(ms, start);
    assert(cs =~= seq![cs[0]]);
    assert("data: "@ + object::object_text(ms) + end =~= start + object::members_text(ms) + seq![
        '}',
    ] + end);
}

/// The values of a truncation frame.
proof fn lemma_truncation_values(id: Seq<char>, model: Seq<char>, message: Seq<char>)
    ensures
        object::are_members(object::encoded(truncation_members(id, model, message)), 3),
        object::are_members(object::encoded(cause_members(message)), 0),
        encode_utf8(choices())[0] == convert::OPEN_BRACKET,
        encode_utf8(object::object_text(cause_members(message))) == object::object_bytes(
            object::encoded(cause_members(message)),
        ),
{
    let ms = object::encoded(truncation_members(id, model, message));
    let inner = object::encoded(choice_members());
    let cs = object::encoded(cause_members(message));
    object::lemma_string_is_value(id);
    object::lemma_string_is_value("chat.completion.chunk"@);
    object::lemma_string_is_value(model);
    object::lemma_string_is_value("length"@);
    object::lemma_string_is_value("upstream stream failed: "@ + message);
    object::lemma_zero_is_value();
    // The choices: an array of one object, which holds an empty object.
    let none = Seq::<(Seq<char>, Seq<char>)>::empty();
    object::lemma_encode_object(none);
    assert(object::encoded(none) =~= seq![]);
    object::lemma_object_is_value(object::encoded(none), 0);
    assert(inner[1].1 == object::object_bytes(object::encoded(none)));
    object::lemma_value_of_more(inner[0].1, 0, 1);
    object::lemma_value_of_more(inner[2].1, 0, 1);
    assert(object::are_members(inner, 1));
    object::lemma_object_is_value(inner, 1);
    object::lemma_encode_object(choice_members());
    object::lemma_single_is_value(object::object_bytes(inner), 2);
    object::lemma_encode_single(object::object_text(choice_members()));
    assert(ms[3].1 == object::single_bytes(object::object_bytes(inner)));
    // The cause: an object of one string.
    assert(object::are_members(cs, 0));
    object::lemma_object_is_value(cs, 0);
    object::lemma_encode_object(cause_members(message));
    assert(ms[4].1 == object::object_bytes(cs));
    object::lemma_value_of_more(ms[0].1, 0, 3);
    object::lemma_value_of_more(ms[1].1, 0, 3);
    object::lemma_value_of_more(ms[2].1, 0, 3);
    object::lemma_value_of_more(ms[4].1, 1, 3);
    assert(object::are_members(ms, 3));
}

/// The id that a truncation frame carries.
pub open spec fn shown_id(id: Option<Seq<char>>) -> Seq<char> {
    match id {
        Some(value) => value,
        None => sse::FALLBACK_ID@,
    }
}

/// White space at the end is trimmed off, and only that.
proof fn lemma_trim_end(core: Seq<u8>, space: Seq<u8>)
    requires
        core.len() > 0,
        !sse::is_ascii_space(core.first()),
        !sse::is_ascii_space(core.last()),
        forall|k: int| 0 <= k < space.len() ==> sse::is_ascii_space(#[trigger] space[k]),
    ensures
        sse::trimmed_bytes(core + space) == core,
    decreases space.len(),
{
    let s = core + space;
    assert(s.first() == core.first());
    if space.len() == 0 {
        assert(s =~= core);
    } else {
        assert(s.last() == space[space.len() - 1]);
        assert(s.drop_last() =~= core + space.drop_last());
        lemma_trim_end(core, space.drop_last());
    }
}

/// What a truncation frame is made of, as bytes.
proof fn lemma_truncation_bytes(id: Option<Seq<char>>, model: Seq<char>, message: Seq<char>)
    ensures
        encode_utf8(sse::truncation_text(id, model, message)) == encode_utf8("data: "@)
            + truncation_payload(shown_id(id), model, message) + encode_utf8("\n\n"@),
{
    let ms = truncation_members(shown_id(id), model, message);
    lemma_truncation_text(id, model, message);
    object::lemma_encode_object(ms);
    text::lemma_encode_concat("data: "@, object::object_text(ms));
    text::lemma_encode_concat("data: "@ + object::object_text(ms), "\n\n"@);
}

/// The payload of a truncation frame is the object it was made of, and not `[DONE]`.
proof fn lemma_truncation_payload(id: Option<Seq<char>>, model: Seq<char>, message: Seq<char>)
    ensures
        sse::payload_of(encode_utf8(sse::truncation_text(id, model, message))) == Some(
            truncation_payload(shown_id(id), model, message),
        ),
        !is_done(encode_utf8(sse::truncation_text(id, model, message))),
{
    let payload = truncation_payload(shown_id(id), model, message);
    let frame = encode_utf8(sse::truncation_text(id, model, message));
    let head = encode_utf8("data: "@);
    let end = encode_utf8("\n\n"@);
    lemma_truncation_bytes(id, model, message);
    reveal_strlit("data: ");
    reveal_strlit("data:");
    reveal_strlit(":");
    reveal_strlit("\n\n");
    reveal_strlit("[DONE]");
    is_ascii_chars_encode_utf8("data: "@);
    is_ascii_chars_encode_utf8("data:"@);
    is_ascii_chars_encode_utf8(":"@);
    is_ascii_chars_encode_utf8("\n\n"@);
    is_ascii_chars_encode_utf8("[DONE]"@);
    let line = head + payload;
    assert(payload[0] == convert::OPEN_BRACE);
    assert(payload.last() == convert::CLOSE_BRACE);
    lemma_trim_end(line, end);
    assert(sse::trimmed_bytes(frame) == line);
    assert(line[0] == 0x64);
    if text::occurs_at(line, encode_utf8(":"@), 0) {
        assert(line.subrange(0, 1)[0] == 0x3a);
    }
    assert(line.subrange(0, 5) =~= encode_utf8("data:"@));
    assert(line.skip(5) =~= seq![0x20u8] + payload);
    assert(line.skip(5).drop_first() =~= payload);
    lemma_trim_end(payload, seq![]);
    assert(payload + Seq::<u8>::empty() =~= payload);
    assert(sse::trimmed_bytes(line.skip(5)) == payload);
    assert(encode_utf8("[DONE]"@)[0] == 0x5b);
}

/// Whether a text encodes without a control byte.
spec fn without_controls(t: Seq<char>) -> bool {
    forall|k: int| 0 <= k < encode_utf8(t).len() ==> #[trigger] encode_utf8(t)[k] >= 0x20
}

/// Texts without control bytes make up one.
proof fn lemma_without_controls(a: Seq<char>, b: Seq<char>)
    requires
        without_controls(a),
        without_controls(b),
    ensures
        without_controls(a + b),
{
    text::lemma_encode_concat(a, b);
    let whole = encode_utf8(a + b);
    let split = encode_utf8(a).len() as int;
    assert forall|k: int| 0 <= k < whole.len() implies #[trigger] whole[k] >= 0x20 by {
        if k < split {
            assert(whole[k] == encode_utf8(a)[k]);
        } else {
            assert(whole[k] == encode_utf8(b)[k - split]);
        }
    }
}

/// The fixed texts of a truncation frame hold no control byte but the newlines at the end.
proof fn lemma_fixed_texts()
    ensures
        without_controls("data: {\"id\":"@),
        without_controls(",\"object\":\"chat.completion.chunk\",\"model\":"@),
        without_controls(
            ",\"choices\":[{\"index\":0,\"delta\":{},\"finish_reason\":\"length\"}],\"error\":{\"message\":"@,
        ),
        encode_utf8("}}\n\n"@) == seq![0x7du8, 0x7d, 0x0a, 0x0a],
{
    reveal_strlit("data: {\"id\":");
    reveal_strlit(",\"object\":\"chat.completion.chunk\",\"model\":");
    reveal_strlit(
        ",\"choices\":[{\"index\":0,\"delta\":{},\"finish_reason\":\"length\"}],\"error\":{\"message\":",
    );
    reveal_strlit("}}\n\n");
    is_ascii_chars_encode_utf8("data: {\"id\":"@);
    is_ascii_chars_encode_utf8(",\"object\":\"chat.completion.chunk\",\"model\":"@);
    is_ascii_chars_encode_utf8(
        ",\"choices\":[{\"index\":0,\"delta\":{},\"finish_reason\":\"length\"}],\"error\":{\"message\":"@,
    );
    is_ascii_chars_encode_utf8("}}\n\n"@);
    assert(encode_utf8("}}\n\n"@) =~= seq![0x7du8, 0x7d, 0x0a, 0x0a]);
}

/// Whatever the id, the model and the cause: a truncation frame is a single data frame, it
/// ends on its only empty line, and it is not the frame that ends a stream.
pub proof fn law_truncation_is_one_frame(
    id: Option<Seq<char>>,
    model: Seq<char>,
    message: Seq<char>,
)
    ensures
        ({
            let frame = encode_utf8(sse::truncation_text(id, model, message));
            &&& sse::frame_end(frame, 0) == Some(frame.len() as int)
            &&& sse::payload_of(frame) == Some(truncation_payload(shown_id(id), model, message))
            &&& !is_done(frame)
        }),
{
    let frame = encode_utf8(sse::truncation_text(id, model, message));
    let id_string = convert::json_string(shown_id(id));
    let model_string = convert::json_string(model);
    let cause = "upstream stream failed: "@ + message;
    let cause_string = convert::json_string(cause);
    lemma_truncation_payload(id, model, message);
    lemma_fixed_texts();
    object::law_strings_stay_closed(shown_id(id), seq![], seq![]);
    object::law_strings_stay_closed(model, seq![], seq![]);
    object::law_strings_stay_closed(cause, seq![], seq![]);
    let a = "data: {\"id\":"@ + id_string;
    lemma_without_controls("data: {\"id\":"@, id_string);
    let b = a + ",\"object\":\"chat.completion.chunk\",\"model\":"@;
    lemma_without_controls(a, ",\"object\":\"chat.completion.chunk\",\"model\":"@);
    let c = b + model_string;
    lemma_without_controls(b, model_string);
    let d = c
        + ",\"choices\":[{\"index\":0,\"delta\":{},\"finish_reason\":\"length\"}],\"error\":{\"message\":"@;
    lemma_without_controls(
        c,
        ",\"choices\":[{\"index\":0,\"delta\":{},\"finish_reason\":\"length\"}],\"error\":{\"message\":"@,
    );
    let e = d + cause_string;
    lemma_without_controls(d, cause_string);
    let front = encode_utf8(e);
    text::lemma_encode_concat(e, "}}\n\n"@);
    assert(frame == front + encode_utf8("}}\n\n"@));
    let last = (front.len() + 2) as int;
    assert(frame[last] == 0x0a && frame[last + 1] == 0x0a);
    assert(sse::boundary_at(frame, last));
    assert forall|k: int| 0 <= k < last implies !#[trigger] sse::boundary_at(frame, k) by {
        if k < front.len() {
            assert(frame[k] == front[k]);
            assert(front[k] >= 0x20);
        } else {
            assert(frame[k] == encode_utf8("}}\n\n"@)[k - front.len()]);
        }
    }
    sse::lemma_frame_end(frame, 0, last);
}

/// No other key of a truncation frame is `error`.
proof fn lemma_error_key()
    ensures
        encode_utf8("error"@) != encode_utf8("id"@),
        encode_utf8("error"@) != encode_utf8("object"@),
        encode_utf8("error"@) != encode_utf8("model"@),
        encode_utf8("error"@) != encode_utf8("choices"@),
{
    reveal_strlit("id");
    reveal_strlit("object");
    reveal_strlit("model");
    reveal_strlit("choices");
    reveal_strlit("error");
    is_ascii_chars_encode_utf8("id"@);
    is_ascii_chars_encode_utf8("object"@);
    is_ascii_chars_encode_utf8("model"@);
    is_ascii_chars_encode_utf8("choices"@);
    is_ascii_chars_encode_utf8("error"@);
    assert(encode_utf8("error"@)[0] == 0x65);
    assert(encode_utf8("id"@)[0] == 0x69);
    assert(encode_utf8("object"@)[0] == 0x6f);
    assert(encode_utf8("model"@)[0] == 0x6d);
    assert(encode_utf8("choices"@)[0] == 0x63);
}

/// The value that a truncation frame has under a key.
pub open spec fn truncation_value(
    id: Seq<char>,
    model: Seq<char>,
    message: Seq<char>,
    key: Seq<u8>,
) -> Option<Seq<u8>> {
    if key == encode_utf8("id"@) {
        Some(object::string_bytes(id))
    } else if key == encode_utf8("object"@) {
        Some(object::string_bytes("chat.completion.chunk"@))
    } else if key == encode_utf8("model"@) {
        Some(object::string_bytes(model))
    } else if key == encode_utf8("choices"@) {
        Some(encode_utf8(choices()))
    } else if key == encode_utf8("error"@) {
        Some(object::object_bytes(object::encoded(cause_members(message))))
    } else {
        None
    }
}

/// Whatever the id, the model and the cause: the payload of a truncation frame has the
/// five members of a final chunk and no others, the strings as they were put in, and the
/// one member of its `error` object is the message.
pub proof fn law_truncation_reads_back(
    id: Seq<char>,
    model: Seq<char>,
    message: Seq<char>,
    key: Seq<u8>,
)
    ensures
        ({
            let payload = truncation_payload(id, model, message);
            match truncation_value(id, model, message, key) {
                Some(value) => convert::member(payload, key) matches Some(m) && payload.subrange(
                    m.start,
                    m.end,
                ) == value && m.is_string == (value[0] == convert::QUOTE),
                None => convert::member(payload, key) is None,
            }
        }),
        ({
            let inner = object::object_bytes(object::encoded(cause_members(message)));
            match convert::member(inner, key) {
                Some(m) => key == encode_utf8("message"@) && m.is_string && inner.subrange(
                    m.start,
                    m.end,
                ) == object::string_bytes("upstream stream failed: "@ + message),
                None => key != encode_utf8("message"@),
            }
        }),
{
    let ms = object::encoded(truncation_members(id, model, message));
    let cs = object::encoded(cause_members(message));
    lemma_truncation_values(id, model, message);
    object::law_objects_read_back(ms, 3, key);
    object::law_objects_read_back(cs, 0, key);
    object::lemma_string_is_value("upstream stream failed: "@ + message);
    lemma_plain_keys();
    object::lemma_plain("id"@);
    object::lemma_plain("object"@);
    object::lemma_plain("model"@);
    object::lemma_plain("choices"@);
    object::lemma_plain("error"@);
    object::lemma_plain("message"@);
    assert(object::named(cs.drop_first(), key) is None);
    let m1 = ms.drop_first();
    let m2 = m1.drop_first();
    let m3 = m2.drop_first();
    let m4 = m3.drop_first();
    assert(object::named(m4.drop_first(), key) is None);
    assert(m4[0] == ms[4]);
    assert(m3[0] == ms[3]);
    assert(m2[0] == ms[2]);
    assert(m1[0] == ms[1]);
    assert(object::named(m4, key) == if encode_utf8("error"@) == key {
        Some(ms[4].1)
    } else {
        None
    });
    assert(object::named(m3, key) == if encode_utf8("choices"@) == key {
        Some(ms[3].1)
    } else {
        object::named(m4, key)
    });
    assert(object::named(m2, key) == if encode_utf8("model"@) == key {
        Some(ms[2].1)
    } else {
        object::named(m3, key)
    });
    assert(object::named(m1, key) == if encode_utf8("object"@) == key {
        Some(ms[1].1)
    } else {
        object::named(m2, key)
    });
    assert(object::named(ms, key) == truncation_value(id, model, message, key));
}

/// A strict client finds the error object of a truncation frame, with a message in it.
pub proof fn law_truncation_speaks_openai(id: Seq<char>, model: Seq<char>, message: Seq<char>)
    ensures
        crate::error::speaks_openai(truncation_payload(id, model, message)),
{
    law_truncation_reads_back(id, model, message, encode_utf8("error"@));
    law_truncation_reads_back(id, model, message, encode_utf8("message"@));
    lemma_error_key();
}

// ---------------------------------------------------------------------------
// How streams end
// ---------------------------------------------------------------------------

/// The first frame that ends a stream is one, and none before it is.
proof fn lemma_done_at(frames: Seq<Seq<u8>>)
    ensures
        match done_at(frames) {
            Some(k) => 0 <= k < frames.len() && is_done(frames[k]) && forall|i: int|
                0 <= i < k ==> !is_done(#[trigger] frames[i]),
            None => forall|i: int| 0 <= i < frames.len() ==> !is_done(#[trigger] frames[i]),
        },
    decreases frames.len(),
{
    if frames.len() > 0 && !is_done(frames.first()) {
        let rest = frames.drop_first();
        lemma_done_at(rest);
        assert forall|i: int|
            0 < i < frames.len() && (done_at(rest) matches Some(k) ==> i < k + 1) implies !is_done(
            #[trigger] frames[i],
        ) by {
            assert(frames[i] == rest[i - 1]);
        }
    }
}

/// The terminator is the frame that ends a stream.
proof fn lemma_done_frame()
    ensures
        is_done(encode_utf8(sse::DONE_FRAME@)),
{
    let frame = encode_utf8(sse::DONE_FRAME@);
    reveal_strlit("data: [DONE]\n\n");
    reveal_strlit("data:");
    reveal_strlit(":");
    reveal_strlit("[DONE]");
    is_ascii_chars_encode_utf8("data: [DONE]\n\n"@);
    is_ascii_chars_encode_utf8("data:"@);
    is_ascii_chars_encode_utf8(":"@);
    is_ascii_chars_encode_utf8("[DONE]"@);
    let line = frame.take(12);
    assert(frame =~= line + seq![0x0au8, 0x0a]);
    lemma_trim_end(line, seq![0x0au8, 0x0a]);
    assert(line[0] == 0x64);
    if text::occurs_at(line, encode_utf8(":"@), 0) {
        assert(line.subrange(0, 1)[0] == 0x3a);
    }
    assert(line.subrange(0, 5) =~= encode_utf8("data:"@));
    let payload = encode_utf8("[DONE]"@);
    assert(line.skip(5).drop_first() =~= payload);
    lemma_trim_end(payload, seq![]);
    assert(payload + Seq::<u8>::empty() =~= payload);
}

/// Nothing follows `[DONE]`: of all that the client gets, only the last frame can be one
/// that ends a stream.
pub proof fn law_done_comes_last(model: Seq<char>, chunks: Seq<Seq<u8>>, ending: Ending)
    ensures
        relayed(model, chunks, ending).len() > 0,
        forall|i: int|
            0 <= i < relayed(model, chunks, ending).len() - 1 ==> !is_done(
                #[trigger] relayed(model, chunks, ending)[i],
            ),
{
    law_streams_come_back_frame_by_frame(model, chunks, ending);
    let frames = split(chunks.flatten()).0;
    lemma_done_at(frames);
    let outs = relayed(model, chunks, ending);
    assert forall|i: int| 0 <= i < outs.len() - 1 implies !is_done(#[trigger] outs[i]) by {
        assert(outs[i] == frames[i]);
    }
}

/// A stream that fails, or ends inside a frame, before it came to `[DONE]` never looks
/// complete: it ends on a truncation frame that says why, and no frame of it is a
/// `[DONE]`.
pub proof fn law_broken_streams_never_say_done(
    model: Seq<char>,
    chunks: Seq<Seq<u8>>,
    ending: Ending,
)
    requires
        done_at(split(chunks.flatten()).0) is None,
        ending is Failed || split(chunks.flatten()).1.len() > 0,
    ensures
        relayed(model, chunks, ending).last() == encode_utf8(
            sse::truncation_text(
                named(None, split(chunks.flatten()).0),
                model,
                match ending {
                    Ending::Failed(cause) => cause,
                    Ending::Ended => sse::CUT_SHORT@,
                },
            ),
        ),
        forall|i: int|
            0 <= i < relayed(model, chunks, ending).len() ==> !is_done(
                #[trigger] relayed(model, chunks, ending)[i],
            ),
{
    law_done_comes_last(model, chunks, ending);
    law_streams_come_back_frame_by_frame(model, chunks, ending);
    let cause = match ending {
        Ending::Failed(cause) => cause,
        Ending::Ended => sse::CUT_SHORT@,
    };
    law_truncation_is_one_frame(named(None, split(chunks.flatten()).0), model, cause);
}

/// A stream that comes to `[DONE]`, or ends between two frames, ends on a terminator for
/// the client too: on its own as it came in, and where it had none, on the relay's.
pub proof fn law_complete_streams_end_on_done(
    model: Seq<char>,
    chunks: Seq<Seq<u8>>,
    ending: Ending,
)
    requires
        done_at(split(chunks.flatten()).0) is Some || (ending is Ended && split(
            chunks.flatten(),
        ).1.len() == 0),
    ensures
        is_done(relayed(model, chunks, ending).last()),
        relayed(model, chunks, ending).last() == (match done_at(split(chunks.flatten()).0) {
            Some(k) => split(chunks.flatten()).0[k],
            None => encode_utf8(sse::DONE_FRAME@),
        }),
{
    law_streams_come_back_frame_by_frame(model, chunks, ending);
    lemma_done_at(split(chunks.flatten()).0);
    lemma_done_frame();
}

/// A relay that has finished stays finished: it reads and sends nothing more.
pub proof fn law_finished_stays_finished(v: sse::RelayView)
    requires
        v.finished,
    ensures
        sse::step(v) == (v, sse::StepView::End),
        drain(v) == (v, Seq::<Seq<u8>>::empty()),
{
}

// ---------------------------------------------------------------------------
// Which frames end a stream
// ---------------------------------------------------------------------------

/// White space apart, a frame of `data:` and `[DONE]` ends a stream.
pub proof fn law_done_frames_end_the_stream(before: Seq<u8>, gap: Seq<u8>, behind: Seq<u8>)
    requires
        sse::is_blank(before),
        sse::is_blank(gap),
        sse::is_blank(behind),
    ensures
        is_done(before + encode_utf8("data:"@) + gap + encode_utf8("[DONE]"@) + behind),
{
    let done = encode_utf8("[DONE]"@);
    lemma_done_bytes();
    assert(seq![done.first()][0] == 0x5b);
    assert(seq![done.last()][0] == 0x5d);
    sse::law_payloads_follow_the_prefix(before, gap, done, behind);
}

/// The mark of the end, byte by byte.
proof fn lemma_done_bytes()
    ensures
        encode_utf8("[DONE]"@) == seq![0x5bu8, 0x44, 0x4f, 0x4e, 0x45, 0x5d],
{
    reveal_strlit("[DONE]");
    is_ascii_chars_encode_utf8("[DONE]"@);
    assert(encode_utf8("[DONE]"@) =~= seq![0x5bu8, 0x44, 0x4f, 0x4e, 0x45, 0x5d]);
}

/// No other frame does: one that ends a stream is, white space apart, `data:` and exactly
/// `[DONE]`.
pub proof fn law_nothing_else_ends_the_stream(frame: Seq<u8>) -> (parts: (
    Seq<u8>,
    Seq<u8>,
    Seq<u8>,
))
    requires
        is_done(frame),
    ensures
        sse::is_blank(parts.0),
        sse::is_blank(parts.1),
        sse::is_blank(parts.2),
        frame == parts.0 + encode_utf8("data:"@) + parts.1 + encode_utf8("[DONE]"@) + parts.2,
{
    sse::law_only_data_frames_have_payloads(frame)
}

/// A frame that carries anything but `[DONE]` is not the end: whatever its payload says,
/// and a JSON object above all.
pub proof fn law_payloads_do_not_end_the_stream(
    before: Seq<u8>,
    gap: Seq<u8>,
    payload: Seq<u8>,
    behind: Seq<u8>,
)
    requires
        sse::is_blank(before),
        sse::is_blank(gap),
        sse::is_core(payload),
        sse::is_blank(behind),
    ensures
        payload != encode_utf8("[DONE]"@) ==> !is_done(
            before + encode_utf8("data:"@) + gap + payload + behind,
        ),
        payload.len() > 0 && payload[0] == 0x7b ==> !is_done(
            before + encode_utf8("data:"@) + gap + payload + behind,
        ),
{
    lemma_done_bytes();
    sse::law_payloads_follow_the_prefix(before, gap, payload, behind);
}

/// Whether a byte string is one whole frame: it ends on two newlines, and has no two in a
/// row before them.
pub open spec fn is_one_frame(frame: Seq<u8>) -> bool {
    &&& frame.len() >= 2
    &&& frame[frame.len() - 2] == 0x0a
    &&& frame[frame.len() - 1] == 0x0a
    &&& forall|k: int| 0 <= k < frame.len() - 2 ==> !(#[trigger] frame[k] == 0x0a && frame[k + 1]
        == 0x0a)
}

/// Frames behind each other split into the frames, and what is left behind them.
proof fn lemma_split_frames(fs: Seq<Seq<u8>>, tail: Seq<u8>)
    requires
        forall|i: int| 0 <= i < fs.len() ==> is_one_frame(#[trigger] fs[i]),
        forall|k: int| 0 <= k < tail.len() - 1 ==> !(#[trigger] tail[k] == 0x0a && tail[k + 1]
            == 0x0a),
    ensures
        split(fs.flatten() + tail) == (fs, tail),
    decreases fs.len(),
{
    if fs.len() == 0 {
        assert(fs.flatten() + tail =~= tail);
        assert forall|k: int| 0 <= k implies !#[trigger] sse::boundary_at(tail, k) by {
            if k < tail.len() - 1 {
                assert(tail[k] == tail[k]);
            }
        }
        sse::lemma_no_frame_end(tail, 0);
        assert(split(tail).0 =~= fs);
    } else {
        let frame = fs.first();
        let others = fs.drop_first();
        assert(is_one_frame(fs[0]));
        assert forall|i: int| 0 <= i < others.len() implies is_one_frame(#[trigger] others[i]) by {
            assert(others[i] == fs[i + 1]);
        }
        lemma_split_frames(others, tail);
        let rest = others.flatten() + tail;
        let s = fs.flatten() + tail;
        assert(s =~= frame + rest);
        let end = frame.len() as int;
        assert(sse::boundary_at(frame, end - 2));
        assert forall|k: int| 0 <= k < end - 2 implies !#[trigger] sse::boundary_at(frame, k) by {
            assert(!(frame[k] == 0x0a && frame[k + 1] == 0x0a));
        }
        sse::lemma_frame_end(frame, 0, end - 2);
        lemma_frame_stays(frame, rest);
        assert((frame + rest).take(end) =~= frame);
        assert((frame + rest).skip(end) =~= rest);
        assert(split(s).0 =~= fs);
    }
}

/// Of a stream in which no frame has the payload `[DONE]`, every frame is handed out as it
/// came, in order, and the relay is not finished before upstream is; one frame is added at
/// the end. It makes no difference how the stream was cut into chunks.
pub proof fn law_all_frames_come_through(
    model: Seq<char>,
    fs: Seq<Seq<u8>>,
    tail: Seq<u8>,
    chunks: Seq<Seq<u8>>,
    ending: Ending,
)
    requires
        forall|i: int| 0 <= i < fs.len() ==> is_one_frame(#[trigger] fs[i]),
        forall|i: int|
            0 <= i < fs.len() ==> sse::payload_of(#[trigger] fs[i]) != Some(encode_utf8("[DONE]"@)),
        forall|k: int| 0 <= k < tail.len() - 1 ==> !(#[trigger] tail[k] == 0x0a && tail[k + 1]
            == 0x0a),
        chunks.flatten() == fs.flatten() + tail,
    ensures
        play(sse::fresh(model), chunks).1 == fs,
        !play(sse::fresh(model), chunks).0.finished,
        play(sse::fresh(model), chunks).0.pending == tail,
        relayed(model, chunks, ending).len() == fs.len() + 1,
        relayed(model, chunks, ending).drop_last() == fs,
        ending is Ended && tail.len() == 0 ==> relayed(model, chunks, ending).last()
            == encode_utf8("data: [DONE]\n\n"@),
{
    lemma_split_frames(fs, tail);
    lemma_done_at(fs);
    let v = sse::fresh(model);
    let whole = sse::with_data(v, chunks.flatten());
    assert(whole.pending =~= chunks.flatten());
    lemma_play(v, chunks);
    lemma_drain(whole);
    law_streams_come_back_frame_by_frame(model, chunks, ending);
    assert(relayed(model, chunks, ending).drop_last() =~= fs);
}

/// Of a stream with a frame whose payload is `[DONE]`, the client gets every frame up to
/// and with the first such one as they came, and nothing more, whatever follows and
/// however the stream ends.
pub proof fn law_the_first_done_is_the_last_frame(
    model: Seq<char>,
    front: Seq<Seq<u8>>,
    done: Seq<u8>,
    rest: Seq<u8>,
    chunks: Seq<Seq<u8>>,
    ending: Ending,
)
    requires
        forall|i: int| 0 <= i < front.len() ==> is_one_frame(#[trigger] front[i]),
        forall|i: int|
            0 <= i < front.len() ==> sse::payload_of(#[trigger] front[i]) != Some(
                encode_utf8("[DONE]"@),
            ),
        is_one_frame(done),
        sse::payload_of(done) == Some(encode_utf8("[DONE]"@)),
        chunks.flatten() == front.flatten() + done + rest,
    ensures
        relayed(model, chunks, ending) == front.push(done),
{
    let input = chunks.flatten();
    let (more, tail) = split(rest);
    law_splitting_keeps_every_byte(rest);
    sse::law_frames_end_on_the_first_empty_line(tail);
    let fs = front.push(done) + more;
    assert forall|i: int| 0 <= i < fs.len() implies is_one_frame(#[trigger] fs[i]) by {
        if i < front.len() {
            assert(fs[i] == front[i]);
        } else if i > front.len() {
            let frame = more[i - front.len() - 1];
            assert(fs[i] == frame);
            sse::law_frames_end_on_the_first_empty_line(frame);
        }
    }
    let n = front.len() as int;
    lemma_flatten_parts(fs, n + 1);
    assert(fs.take(n + 1) =~= front.push(done));
    assert(fs.skip(n + 1) =~= more);
    lemma_flatten_parts(front.push(done), n);
    assert(front.push(done).take(n) =~= front);
    assert(front.push(done).skip(n) =~= seq![done]);
    seq![done].lemma_flatten_one_element();
    assert(input =~= fs.flatten() + tail);
    lemma_split_frames(fs, tail);
    lemma_done_at(fs);
    assert(fs[n] == done);
    assert forall|i: int| 0 <= i < n implies !is_done(#[trigger] fs[i]) by {
        assert(fs[i] == front[i]);
    }
    law_streams_come_back_frame_by_frame(model, chunks, ending);
    assert(done_at(fs) == Some(n));
}

/// The first data frame with a top-level id names the stream; frames without one do not.
pub proof fn law_the_first_id_names_the_stream(
    front: Seq<Seq<u8>>,
    frame: Seq<u8>,
    behind: Seq<Seq<u8>>,
)
    requires
        forall|i: int|
            0 <= i < front.len() ==> (sse::payload_of(#[trigger] front[i]) matches Some(p)
                ==> convert::top_level_text(p, encode_utf8("id"@)) is None),
        sse::payload_of(frame) is Some,
        convert::top_level_text(sse::payload_of(frame)->0, encode_utf8("id"@)) is Some,
    ensures
        named(None, front) is None,
        named(None, front + seq![frame] + behind) == convert::top_level_text(
            sse::payload_of(frame)->0,
            encode_utf8("id"@),
        ),
    decreases front.len(),
{
    let all = front + seq![frame] + behind;
    if front.len() > 0 {
        let rest = front.drop_first();
        assert forall|i: int| 0 <= i < rest.len() implies (sse::payload_of(#[trigger] rest[i])
            matches Some(p) ==> convert::top_level_text(p, encode_utf8("id"@)) is None) by {
            assert(rest[i] == front[i + 1]);
        }
        assert(all.drop_first() =~= rest + seq![frame] + behind);
        assert(all.first() == front[0]);
        assert(front.first() == front[0]);
        law_the_first_id_names_the_stream(rest, frame, behind);
    } else {
        assert(all.first() == frame);
        assert(all.drop_first() =~= behind);
        let id = convert::top_level_text(sse::payload_of(frame)->0, encode_utf8("id"@));
        assert(named(id, behind) == id);
    }
}

/// The choices of a truncation frame: one, empty, that was cut for its length.
pub proof fn law_truncated_answers_are_cut_for_length()
    ensures
        choices() == "[{\"index\":0,\"delta\":{},\"finish_reason\":\"length\"}]"@,
        shown_id(None) == "llm-relay-0"@,
        sse::CUT_SHORT@ == "closed mid-frame"@,
{
    let ms = choice_members();
    lemma_plain_keys();
    object::lemma_plain("index"@);
    object::lemma_plain("delta"@);
    object::lemma_plain("finish_reason"@);
    object::lemma_plain("length"@);
    object::lemma_first_member(ms);
    assert(ms.drop_first() =~= seq![ms[1], ms[2]]);
    object::lemma_two_members(ms[1], ms[2]);
    reveal_strlit("[{\"index\":0,\"delta\":{},\"finish_reason\":\"length\"}]");
    reveal_strlit("index");
    reveal_strlit("delta");
    reveal_strlit("finish_reason");
    reveal_strlit("length");
    reveal_strlit("0");
    assert(object::object_text(seq![]) =~= seq!['{', '}']);
    let index = seq!['"'] + "index"@ + seq!['"'] + seq![':'] + "0"@;
    let delta = seq!['"'] + "delta"@ + seq!['"'] + seq![':'] + seq!['{', '}'];
    let reason = seq!['"'] + "finish_reason"@ + seq!['"'] + seq![':'] + (seq!['"'] + "length"@
        + seq!['"']);
    assert(object::member_text(ms[0]) =~= index);
    assert(object::member_text(ms[1]) =~= delta);
    assert(object::member_text(ms[2]) =~= reason);
    assert(choices() =~= seq!['[', '{'] + index + seq![','] + delta + seq![','] + reason + seq![
        '}',
        ']',
    ]);
    assert(choices() =~= "[{\"index\":0,\"delta\":{},\"finish_reason\":\"length\"}]"@);
}

} // verus!
