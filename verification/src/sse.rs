//! Relaying a server-sent event stream frame by frame, until `[DONE]` or the stream ends
//! or fails. Frames go out byte for byte as they came in, however the upstream cut them
//! into chunks. A broken stream gets an in-band truncation frame and never a clean
//! `[DONE]`; strict clients raise on the error object.

use bytes::{Bytes, BytesMut};
use vstd::prelude::*;
use vstd::utf8::*;

use crate::buffer;
use crate::convert;
use crate::text;

verus! {

/// The frame that the relay puts behind a stream that ended without one of its own.
pub const DONE_FRAME: &'static str = "data: [DONE]\n\n";

/// The id that a truncation frame carries where the stream gave none.
pub const FALLBACK_ID: &'static str = "llm-relay-0";

/// The cause that a truncation frame names where the stream ended inside a frame.
pub const CUT_SHORT: &'static str = "closed mid-frame";

pub const NEWLINE: u8 = 0x0a;

// ---------------------------------------------------------------------------
// Frames
// ---------------------------------------------------------------------------

/// Whether an empty line starts at `i`: two newlines in a row.
pub open spec fn boundary_at(s: Seq<u8>, i: int) -> bool {
    0 <= i && i + 1 < s.len() && s[i] == NEWLINE && s[i + 1] == NEWLINE
}

/// The end of the first frame: the position past the first two newlines in a row that
/// stand at `i` or later.
pub open spec fn frame_end(s: Seq<u8>, i: int) -> Option<int>
    decreases s.len() - i,
{
    if i < 0 || i + 1 >= s.len() {
        None
    } else if boundary_at(s, i) {
        Some(i + 2)
    } else {
        frame_end(s, i + 1)
    }
}

/// The first boundary at or after `from` is the first there is, where none comes before.
pub proof fn lemma_frame_end(s: Seq<u8>, from: int, at: int)
    requires
        0 <= from <= at,
        boundary_at(s, at),
        forall|k: int| from <= k < at ==> !#[trigger] boundary_at(s, k),
    ensures
        frame_end(s, from) == Some(at + 2),
    decreases at - from,
{
    if from < at {
        assert(!boundary_at(s, from));
        lemma_frame_end(s, from + 1, at);
    }
}

/// Without a boundary there is no frame.
pub proof fn lemma_no_frame_end(s: Seq<u8>, from: int)
    requires
        0 <= from,
        forall|k: int| from <= k ==> !#[trigger] boundary_at(s, k),
    ensures
        frame_end(s, from) is None,
    decreases s.len() - from,
{
    if from + 1 < s.len() {
        assert(!boundary_at(s, from));
        lemma_no_frame_end(s, from + 1);
    }
}

/// A frame that is found ends on the first boundary.
pub proof fn lemma_frame_end_inv(s: Seq<u8>, from: int)
    ensures
        frame_end(s, from) matches Some(end) ==> 0 <= from && from + 2 <= end <= s.len()
            && boundary_at(s, end - 2) && (forall|k: int|
            from <= k < end - 2 ==> !#[trigger] boundary_at(s, k)),
        frame_end(s, from) is None && 0 <= from ==> (forall|k: int|
            from <= k ==> !#[trigger] boundary_at(s, k)),
    decreases s.len() - from,
{
    if 0 <= from && from + 1 < s.len() && !boundary_at(s, from) {
        lemma_frame_end_inv(s, from + 1);
    }
}

/// Two newlines, byte by byte.
proof fn lemma_two_newlines()
    ensures
        encode_utf8("\n\n"@) == seq![NEWLINE, NEWLINE],
{
    reveal_strlit("\n\n");
    is_ascii_chars_encode_utf8("\n\n"@);
    assert(encode_utf8("\n\n"@) =~= seq![NEWLINE, NEWLINE]);
}

/// First `\n\n` boundary at or after `from`, as an inclusive end index.
fn find_frame_end(pending: &[u8], from: usize) -> (res: Option<usize>)
    ensures
        match frame_end(pending@, from as int) {
            Some(end) => res matches Some(last) && last + 1 == end && end <= pending.len(),
            None => res is None,
        },
{
    proof {
        lemma_frame_end_inv(pending@, from as int);
        lemma_two_newlines();
    }
    if from >= pending.len() {
        return None;
    }
    let tail = &pending[from..pending.len()];
    let found = memchr::memmem::find(tail, "\n\n".as_bytes());
    proof {
        let needle = encode_utf8("\n\n"@);
        assert forall|k: int| 0 <= k implies text::occurs_at(tail@, needle, k) == #[trigger]
            boundary_at(pending@, from + k) by {
            if text::occurs_at(tail@, needle, k) {
                assert(tail@.subrange(k, k + 2)[0] == NEWLINE);
                assert(tail@.subrange(k, k + 2)[1] == NEWLINE);
            }
            if boundary_at(pending@, from + k) {
                assert(tail@.subrange(k, k + 2) =~= needle);
            }
        }
        match found {
            Some(i) => {
                assert(boundary_at(pending@, from + i));
                assert forall|k: int| from <= k < from + i implies !#[trigger] boundary_at(
                    pending@,
                    k,
                ) by {
                    assert(boundary_at(pending@, from + (k - from)) == text::occurs_at(
                        tail@,
                        needle,
                        k - from,
                    ));
                }
                lemma_frame_end(pending@, from as int, from + i);
            },
            None => {
                assert forall|k: int| from <= k implies !#[trigger] boundary_at(pending@, k) by {
                    assert(boundary_at(pending@, from + (k - from)) == text::occurs_at(
                        tail@,
                        needle,
                        k - from,
                    ));
                }
                lemma_no_frame_end(pending@, from as int);
            },
        }
    }
    match found {
        Some(i) => Some(from + i + 1),
        None => None,
    }
}

/// The white space of ASCII: space, tab, newline, form feed, carriage return.
pub open spec fn is_ascii_space(b: u8) -> bool {
    b == 0x20 || b == 0x09 || b == 0x0a || b == 0x0c || b == 0x0d
}

/// A byte string without the ASCII white space at its two ends.
pub open spec fn trimmed_bytes(s: Seq<u8>) -> Seq<u8>
    decreases s.len(),
{
    if s.len() == 0 {
        s
    } else if is_ascii_space(s.first()) {
        trimmed_bytes(s.drop_first())
    } else if is_ascii_space(s.last()) {
        trimmed_bytes(s.drop_last())
    } else {
        s
    }
}

fn trim_ascii(bytes: &[u8]) -> (res: &[u8])
    ensures
        res@ == trimmed_bytes(bytes@),
{
    let mut from: usize = 0;
    let mut to: usize = bytes.len();
    assert(bytes@.subrange(0, to as int) == bytes@);
    while from < to && (bytes[from] == 0x20 || bytes[from] == 0x09 || bytes[from] == 0x0a
        || bytes[from] == 0x0c || bytes[from] == 0x0d)
        invariant
            from <= to,
            to == bytes.len(),
            trimmed_bytes(bytes@.subrange(from as int, to as int)) == trimmed_bytes(bytes@),
        decreases to - from,
    {
        assert(bytes@.subrange(from as int, to as int).drop_first() == bytes@.subrange(
            from + 1,
            to as int,
        ));
        from += 1;
    }
    while from < to && (bytes[to - 1] == 0x20 || bytes[to - 1] == 0x09 || bytes[to - 1] == 0x0a
        || bytes[to - 1] == 0x0c || bytes[to - 1] == 0x0d)
        invariant
            from <= to <= bytes.len(),
            from < to ==> !is_ascii_space(bytes@[from as int]),
            trimmed_bytes(bytes@.subrange(from as int, to as int)) == trimmed_bytes(bytes@),
        decreases to - from,
    {
        assert(bytes@.subrange(from as int, to as int).drop_last() == bytes@.subrange(
            from as int,
            to - 1,
        ));
        to -= 1;
    }
    let res = &bytes[from..to];
    assert(trimmed_bytes(res@) == res@);
    res
}

/// The payload of an SSE data frame: `None` for comments and non-data events.
pub open spec fn payload_of(frame: Seq<u8>) -> Option<Seq<u8>> {
    let line = trimmed_bytes(frame);
    if text::occurs_at(line, encode_utf8(":"@), 0) {
        None
    } else if text::occurs_at(line, encode_utf8("data:"@), 0) {
        Some(trimmed_bytes(line.skip(5)))
    } else {
        None
    }
}

/// The payload of an SSE data frame: `None` for comments and non-data events.
pub fn sse_payload(frame: &[u8]) -> (res: Option<&[u8]>)
    ensures
        match payload_of(frame@) {
            Some(payload) => res matches Some(found) && found@ == payload,
            None => res is None,
        },
{
    let line = trim_ascii(frame);
    if text::bytes_at(line, 0, ":".as_bytes()) {
        return None;
    }
    if !text::bytes_at(line, 0, "data:".as_bytes()) {
        return None;
    }
    proof {
        reveal_strlit("data:");
        is_ascii_chars_encode_utf8("data:"@);
        assert(line@.subrange(5, line@.len() as int) == line@.skip(5));
    }
    Some(trim_ascii(&line[5..line.len()]))
}

/// The text of a final chunk that marks the answer as cut short.
pub open spec fn truncation_text(
    id: Option<Seq<char>>,
    model: Seq<char>,
    message: Seq<char>,
) -> Seq<char> {
    let id_text = match id {
        Some(value) => value,
        None => FALLBACK_ID@,
    };
    "data: {\"id\":"@ + convert::json_string(id_text)
        + ",\"object\":\"chat.completion.chunk\",\"model\":"@ + convert::json_string(model)
        + ",\"choices\":[{\"index\":0,\"delta\":{},\"finish_reason\":\"length\"}],\"error\":{\"message\":"@
        + convert::json_string("upstream stream failed: "@ + message) + "}}\n\n"@
}

/// The bytes of a final chunk that marks the answer as cut short.
pub open spec fn truncation(v: RelayView, message: Seq<char>) -> Seq<u8> {
    encode_utf8(truncation_text(v.stream_id, v.model, message))
}

/// A final chunk marking the answer as cut short: `finish_reason: "length"` plus the
/// cause in an `error` object, never followed by `[DONE]`.
pub fn truncation_frame(id: Option<&str>, model: &str, message: &str) -> (res: Bytes)
    ensures
        buffer::content(res) == encode_utf8(
            truncation_text(
                match id {
                    Some(value) => Some(value@),
                    None => None,
                },
                model@,
                message@,
            ),
        ),
{
    let id_text = match id {
        Some(value) => value,
        None => FALLBACK_ID,
    };
    let mut out = String::new();
    out.push_str("data: {\"id\":");
    convert::write_json_string(&mut out, id_text);
    out.push_str(",\"object\":\"chat.completion.chunk\",\"model\":");
    convert::write_json_string(&mut out, model);
    out.push_str(
        ",\"choices\":[{\"index\":0,\"delta\":{},\"finish_reason\":\"length\"}],\"error\":{\"message\":",
    );
    let mut cause = "upstream stream failed: ".to_owned();
    cause.push_str(message);
    convert::write_json_string(&mut out, cause.as_str());
    out.push_str("}}\n\n");
    assert(out@ =~= truncation_text(
        match id {
            Some(value) => Some(value@),
            None => None,
        },
        model@,
        message@,
    ));
    buffer::bytes_from_string(out)
}

// ---------------------------------------------------------------------------
// The relay
// ---------------------------------------------------------------------------

/// Relay state: the bytes that wait for the rest of their frame, and what a truncation
/// frame would have to name.
pub struct RelayState {
    pending: BytesMut,
    /// How far into `pending` the frame-boundary search already looked, so a long frame
    /// is scanned once overall rather than once per arriving chunk.
    scanned: usize,
    done: bool,
    finished: bool,
    stream_id: Option<String>,
    model: String,
}

/// What the relay remembers of a stream.
pub struct RelayView {
    pub pending: Seq<u8>,
    pub done: bool,
    pub finished: bool,
    pub stream_id: Option<Seq<char>>,
    pub model: Seq<char>,
}

/// What the relay is to do next.
pub enum RelayStep {
    /// Send this to the client.
    Emit(Bytes),
    /// Read more from upstream.
    Read,
    /// Nothing more comes.
    End,
}

/// What the relay is to do next, in view.
pub enum StepView {
    Emit(Seq<u8>),
    Read,
    End,
}

impl View for RelayStep {
    type V = StepView;

    open spec fn view(&self) -> StepView {
        match self {
            RelayStep::Emit(frame) => StepView::Emit(buffer::content(*frame)),
            RelayStep::Read => StepView::Read,
            RelayStep::End => StepView::End,
        }
    }
}

/// The state before anything has come in.
pub open spec fn fresh(model: Seq<char>) -> RelayView {
    RelayView { pending: seq![], done: false, finished: false, stream_id: None, model }
}

/// One buffered frame: what the client gets, and what the relay remembers. Every frame
/// passes untouched. `[DONE]` is end-of-stream, in whatever spelling it came, and drops
/// anything after it; the first data frame that names an id names the stream.
pub open spec fn frame_step(v: RelayView, frame: Seq<u8>) -> (RelayView, Seq<u8>) {
    match payload_of(frame) {
        None => (v, frame),
        Some(payload) => if payload == encode_utf8("[DONE]"@) {
            (RelayView { pending: seq![], done: true, finished: true, ..v }, frame)
        } else if v.stream_id is None {
            (
                RelayView {
                    stream_id: convert::top_level_text(payload, encode_utf8("id"@)),
                    ..v
                },
                frame,
            )
        } else {
            (v, frame)
        },
    }
}

/// What the relay does with what it has: a complete frame already buffered wins over
/// reading more.
pub open spec fn step(v: RelayView) -> (RelayView, StepView) {
    if v.finished {
        (v, StepView::End)
    } else {
        match frame_end(v.pending, 0) {
            Some(end) => {
                let rest = RelayView { pending: v.pending.skip(end), ..v };
                let (next, out) = frame_step(rest, v.pending.take(end));
                (next, StepView::Emit(out))
            },
            None => (v, StepView::Read),
        }
    }
}

/// The state after more bytes have come in.
pub open spec fn with_data(v: RelayView, data: Seq<u8>) -> RelayView {
    RelayView { pending: v.pending + data, ..v }
}

/// The state after upstream has nothing more to give.
pub open spec fn closed(v: RelayView) -> RelayView {
    RelayView { finished: true, ..v }
}

/// What the client gets when the stream ends: a partial tail is a truncation, a clean end
/// without `[DONE]` still gets the terminator.
pub open spec fn at_end(v: RelayView) -> Option<Seq<u8>> {
    if v.pending.len() > 0 {
        Some(truncation(v, CUT_SHORT@))
    } else if v.done {
        None
    } else {
        Some(encode_utf8(DONE_FRAME@))
    }
}

/// An optional text, in view.
pub open spec fn text_of(s: Option<String>) -> Option<Seq<char>> {
    match s {
        Some(value) => Some(value@),
        None => None,
    }
}

impl View for RelayState {
    type V = RelayView;

    closed spec fn view(&self) -> RelayView {
        RelayView {
            pending: buffer::buffered(self.pending),
            done: self.done,
            finished: self.finished,
            stream_id: text_of(self.stream_id),
            model: self.model@,
        }
    }
}

impl RelayState {
    /// No frame ends before the place up to which the search has looked.
    pub closed spec fn wf(&self) -> bool {
        let pending = buffer::buffered(self.pending);
        &&& self.scanned <= pending.len()
        &&& self.scanned > 0 ==> self.scanned < pending.len()
        &&& forall|k: int| 0 <= k < self.scanned ==> !#[trigger] boundary_at(pending, k)
    }

    /// A relay for a stream of which nothing has come in yet.
    pub fn new(model: &str) -> (res: Self)
        ensures
            res.wf(),
            res@ == fresh(model@),
    {
        RelayState {
            pending: BytesMut::new(),
            scanned: 0,
            done: false,
            finished: false,
            stream_id: None,
            model: model.to_owned(),
        }
    }

    /// One buffered frame on its way to the client.
    fn frame_step(&mut self, frame: Bytes) -> (res: Bytes)
        requires
            old(self).wf(),
            old(self).scanned == 0,
        ensures
            final(self).wf(),
            frame_step(old(self)@, buffer::content(frame)) == (
                final(self)@,
                buffer::content(res),
            ),
    {
        let is_done;
        let mut id: Option<String> = None;
        match sse_payload(buffer::bytes_slice(&frame)) {
            None => {
                // Comment lines and non-data events pass through untouched.
                return frame;
            },
            Some(payload) => {
                is_done = text::bytes_eq(payload, "[DONE]".as_bytes());
                if !is_done && self.stream_id.is_none() {
                    // Read for the truncation frame's id only; the frame itself is
                    // relayed byte for byte.
                    id = match convert::top_level_str(payload, "id".as_bytes()) {
                        Some(found) => Some(found.to_owned()),
                        None => None,
                    };
                }
            },
        }
        if is_done {
            self.done = true;
            self.finished = true;
            self.pending.clear();
            return frame;
        }
        if self.stream_id.is_none() {
            self.stream_id = id;
        }
        frame
    }

    /// What to do next: hand out a buffered frame, read more, or stop.
    pub fn poll(&mut self) -> (res: RelayStep)
        requires
            old(self).wf(),
        ensures
            final(self).wf(),
            step(old(self)@) == (final(self)@, res@),
    {
        if self.finished {
            return RelayStep::End;
        }
        let found = find_frame_end(buffer::buffer_slice(&self.pending), self.scanned);
        proof {
            let pending = buffer::buffered(self.pending);
            lemma_frame_end_inv(pending, self.scanned as int);
            match frame_end(pending, self.scanned as int) {
                Some(end) => {
                    lemma_frame_end(pending, 0, end - 2);
                },
                None => {
                    lemma_no_frame_end(pending, 0);
                },
            }
        }
        match found {
            Some(end) => {
                let frame = self.pending.split_to(end + 1).freeze();
                self.scanned = 0;
                assert(self@ == (RelayView { pending: old(self)@.pending.skip(end + 1), ..old(self)@ }));
                RelayStep::Emit(self.frame_step(frame))
            },
            None => {
                // Only a boundary straddling the join needs re-examining.
                self.scanned = self.pending.len().saturating_sub(1);
                RelayStep::Read
            },
        }
    }

    /// Whether so many more bytes can be taken in.
    pub fn fits(&self, extra: usize) -> (res: bool)
        ensures
            res == (self@.pending.len() + extra <= isize::MAX / 4),
    {
        let limit: usize = isize::MAX as usize / 4;
        extra <= limit && self.pending.len() <= limit - extra
    }

    /// Upstream sent more bytes.
    pub fn on_data(&mut self, data: &[u8])
        requires
            old(self).wf(),
            old(self)@.pending.len() + data@.len() <= isize::MAX / 4,
        ensures
            final(self).wf(),
            final(self)@ == with_data(old(self)@, data@),
    {
        let ghost before = buffer::buffered(self.pending);
        self.pending.extend_from_slice(data);
        proof {
            let after = buffer::buffered(self.pending);
            assert forall|k: int| 0 <= k < self.scanned implies !#[trigger] boundary_at(
                after,
                k,
            ) by {
                assert(!boundary_at(before, k));
            }
        }
    }

    /// Upstream failed: the client is told why, in band.
    pub fn on_error(&mut self, cause: &str) -> (res: Bytes)
        requires
            old(self).wf(),
        ensures
            final(self).wf(),
            final(self)@ == closed(old(self)@),
            buffer::content(res) == truncation(old(self)@, cause@),
    {
        self.finished = true;
        let id = match &self.stream_id {
            Some(value) => Some(value.as_str()),
            None => None,
        };
        truncation_frame(id, self.model.as_str(), cause)
    }

    /// Upstream ended.
    pub fn on_end(&mut self) -> (res: Option<Bytes>)
        requires
            old(self).wf(),
        ensures
            final(self).wf(),
            final(self)@ == closed(old(self)@),
            match at_end(old(self)@) {
                Some(out) => res matches Some(frame) && buffer::content(frame) == out,
                None => res is None,
            },
    {
        if self.pending.len() > 0 {
            return Some(self.on_error(CUT_SHORT));
        }
        self.finished = true;
        if self.done {
            None
        } else {
            Some(Bytes::from_static(DONE_FRAME.as_bytes()))
        }
    }
}

// ---------------------------------------------------------------------------
// What holds of frames and payloads
// ---------------------------------------------------------------------------

/// The first frame ends past the first two newlines in a row; without two in a row there
/// is no frame.
pub proof fn law_frames_end_on_the_first_empty_line(s: Seq<u8>)
    ensures
        match frame_end(s, 0) {
            Some(end) => 2 <= end <= s.len() && s[end - 2] == 0x0a && s[end - 1] == 0x0a
                && forall|k: int| 0 <= k < end - 2 ==> !(#[trigger] s[k] == 0x0a && s[k + 1] == 0x0a),
            None => forall|k: int|
                0 <= k < s.len() - 1 ==> !(#[trigger] s[k] == 0x0a && s[k + 1] == 0x0a),
        },
{
    lemma_frame_end_inv(s, 0);
    match frame_end(s, 0) {
        Some(end) => {
            assert forall|k: int| 0 <= k < end - 2 implies !(#[trigger] s[k] == 0x0a && s[k + 1]
                == 0x0a) by {
                assert(!boundary_at(s, k));
            }
        },
        None => {
            assert forall|k: int| 0 <= k < s.len() - 1 implies !(#[trigger] s[k] == 0x0a && s[k + 1]
                == 0x0a) by {
                assert(!boundary_at(s, k));
            }
        },
    }
}

/// Whether a byte string is ASCII white space and nothing else: spaces, tabs, newlines,
/// form feeds, carriage returns.
pub open spec fn is_blank(w: Seq<u8>) -> bool {
    forall|k: int|
        0 <= k < w.len() ==> #[trigger] w[k] == 0x20 || w[k] == 0x09 || w[k] == 0x0a || w[k] == 0x0c
            || w[k] == 0x0d
}

/// Whether a byte string neither starts nor ends with white space.
pub open spec fn is_core(s: Seq<u8>) -> bool {
    s.len() > 0 ==> !is_blank(seq![s.first()]) && !is_blank(seq![s.last()])
}

/// One byte is white space or not.
proof fn lemma_one_blank(b: u8)
    ensures
        is_blank(seq![b]) == is_ascii_space(b),
{
    assert(seq![b][0] == b);
}

/// Trimming takes the white space off both ends, all of it, and nothing else.
pub proof fn law_trimming_bytes_keeps_the_core(before: Seq<u8>, core: Seq<u8>, behind: Seq<u8>)
    requires
        is_blank(before),
        is_core(core),
        is_blank(behind),
    ensures
        trimmed_bytes(before + core + behind) == core,
    decreases before.len() + behind.len(),
{
    let s = before + core + behind;
    if core.len() > 0 {
        lemma_one_blank(core.first());
        lemma_one_blank(core.last());
    }
    if before.len() > 0 {
        let rest = before.drop_first();
        assert(s.first() == before[0]);
        assert(s.drop_first() =~= rest + core + behind);
        assert forall|k: int| 0 <= k < rest.len() implies #[trigger] rest[k] == 0x20 || rest[k]
            == 0x09 || rest[k] == 0x0a || rest[k] == 0x0c || rest[k] == 0x0d by {
            assert(rest[k] == before[k + 1]);
        }
        law_trimming_bytes_keeps_the_core(rest, core, behind);
    } else if behind.len() > 0 {
        let rest = behind.drop_last();
        if core.len() > 0 {
            assert(s.first() == core.first());
            assert(s.last() == behind[behind.len() - 1]);
            assert(s.drop_last() =~= before + core + rest);
            law_trimming_bytes_keeps_the_core(before, core, rest);
        } else {
            let fewer = behind.drop_first();
            assert(s.first() == behind[0]);
            assert(s.drop_first() =~= before + core + fewer);
            assert forall|k: int| 0 <= k < fewer.len() implies #[trigger] fewer[k] == 0x20
                || fewer[k] == 0x09 || fewer[k] == 0x0a || fewer[k] == 0x0c || fewer[k]
                == 0x0d by {
                assert(fewer[k] == behind[k + 1]);
            }
            law_trimming_bytes_keeps_the_core(before, core, fewer);
        }
    } else {
        assert(s =~= core);
        if core.len() > 0 {
            assert(s.first() == core.first() && s.last() == core.last());
        }
    }
}

/// Every text has a core, with white space around it.
proof fn lemma_core(s: Seq<u8>) -> (parts: (Seq<u8>, Seq<u8>))
    ensures
        is_blank(parts.0),
        is_core(trimmed_bytes(s)),
        is_blank(parts.1),
        s == parts.0 + trimmed_bytes(s) + parts.1,
    decreases s.len(),
{
    if s.len() == 0 {
        assert(s =~= s + s + s);
        (s, s)
    } else if is_ascii_space(s.first()) {
        let (a, b) = lemma_core(s.drop_first());
        let before = seq![s.first()] + a;
        let core = trimmed_bytes(s.drop_first());
        assert(s =~= seq![s.first()] + (a + core + b));
        assert(s =~= before + core + b);
        assert forall|k: int| 0 <= k < before.len() implies #[trigger] before[k] == 0x20
            || before[k] == 0x09 || before[k] == 0x0a || before[k] == 0x0c || before[k] == 0x0d by {
            if k > 0 {
                assert(before[k] == a[k - 1]);
            }
        }
        (before, b)
    } else if is_ascii_space(s.last()) {
        let (a, b) = lemma_core(s.drop_last());
        let behind = b + seq![s.last()];
        let core = trimmed_bytes(s.drop_last());
        assert(s =~= (a + core + b) + seq![s.last()]);
        assert(s =~= a + core + behind);
        assert forall|k: int| 0 <= k < behind.len() implies #[trigger] behind[k] == 0x20
            || behind[k] == 0x09 || behind[k] == 0x0a || behind[k] == 0x0c || behind[k]
            == 0x0d by {
            if k < b.len() {
                assert(behind[k] == b[k]);
            }
        }
        (a, behind)
    } else {
        lemma_one_blank(s.first());
        lemma_one_blank(s.last());
        let none = Seq::<u8>::empty();
        assert(s =~= none + s + none);
        (none, none)
    }
}

/// The prefix of a data frame, byte by byte.
proof fn lemma_data_prefix()
    ensures
        encode_utf8("data:"@) == seq![0x64u8, 0x61, 0x74, 0x61, 0x3a],
        encode_utf8(":"@) == seq![0x3au8],
{
    reveal_strlit("data:");
    reveal_strlit(":");
    is_ascii_chars_encode_utf8("data:"@);
    is_ascii_chars_encode_utf8(":"@);
    assert(encode_utf8("data:"@) =~= seq![0x64u8, 0x61, 0x74, 0x61, 0x3a]);
    assert(encode_utf8(":"@) =~= seq![0x3au8]);
}

/// The payload of a data frame is what follows `data:`, white space apart.
pub proof fn law_payloads_follow_the_prefix(
    before: Seq<u8>,
    gap: Seq<u8>,
    payload: Seq<u8>,
    behind: Seq<u8>,
)
    requires
        is_blank(before),
        is_blank(gap),
        is_core(payload),
        is_blank(behind),
    ensures
        payload_of(before + encode_utf8("data:"@) + gap + payload + behind) == Some(payload),
{
    let data = encode_utf8("data:"@);
    let frame = before + data + gap + payload + behind;
    let none = Seq::<u8>::empty();
    lemma_data_prefix();
    let line = if payload.len() > 0 {
        data + gap + payload
    } else {
        data
    };
    let end = if payload.len() > 0 {
        behind
    } else {
        gap + behind
    };
    assert(frame =~= before + line + end);
    assert(is_blank(end)) by {
        assert forall|k: int| 0 <= k < end.len() implies #[trigger] end[k] == 0x20 || end[k] == 0x09
            || end[k] == 0x0a || end[k] == 0x0c || end[k] == 0x0d by {
            if payload.len() == 0 {
                if k < gap.len() {
                    assert(end[k] == gap[k]);
                } else {
                    assert(end[k] == behind[k - gap.len()]);
                }
            }
        }
    }
    lemma_one_blank(line.first());
    lemma_one_blank(line.last());
    if payload.len() > 0 {
        assert(line.last() == payload.last());
        lemma_one_blank(payload.last());
    }
    assert(line.first() == 0x64);
    law_trimming_bytes_keeps_the_core(before, line, end);
    if text::occurs_at(line, encode_utf8(":"@), 0) {
        assert(line.subrange(0, 1)[0] == 0x3a);
    }
    assert(line.subrange(0, 5) =~= data);
    if payload.len() > 0 {
        assert(line.skip(5) =~= gap + payload + none);
        law_trimming_bytes_keeps_the_core(gap, payload, none);
    } else {
        assert(line.skip(5) =~= none + payload + none);
        law_trimming_bytes_keeps_the_core(none, payload, none);
    }
}

/// A frame with a payload is a data frame: white space apart, it is `data:` and the
/// payload. Comments and other events have none.
pub proof fn law_only_data_frames_have_payloads(frame: Seq<u8>) -> (parts: (
    Seq<u8>,
    Seq<u8>,
    Seq<u8>,
))
    requires
        payload_of(frame) is Some,
    ensures
        is_blank(parts.0),
        is_blank(parts.1),
        is_core(payload_of(frame)->0),
        is_blank(parts.2),
        frame == parts.0 + encode_utf8("data:"@) + parts.1 + payload_of(frame)->0 + parts.2,
{
    let payload = payload_of(frame)->0;
    let line = trimmed_bytes(frame);
    let (a, d) = lemma_core(frame);
    lemma_data_prefix();
    let data = encode_utf8("data:"@);
    assert(line.subrange(0, 5) == data);
    let rest = line.skip(5);
    assert(line =~= data + rest);
    let (b, c) = lemma_core(rest);
    let behind = c + d;
    assert forall|k: int| 0 <= k < behind.len() implies #[trigger] behind[k] == 0x20 || behind[k]
        == 0x09 || behind[k] == 0x0a || behind[k] == 0x0c || behind[k] == 0x0d by {
        if k < c.len() {
            assert(behind[k] == c[k]);
        } else {
            assert(behind[k] == d[k - c.len()]);
        }
    }
    assert(frame =~= a + data + b + payload + behind);
    (a, b, behind)
}

/// More bytes go behind those that wait, and change nothing else; an end changes nothing
/// but that nothing more comes; and a fresh relay waits for a model's stream with nothing.
pub proof fn law_data_is_only_appended(v: RelayView, data: Seq<u8>, model: Seq<char>)
    ensures
        with_data(v, data) == (RelayView { pending: v.pending + data, ..v }),
        closed(v) == (RelayView { finished: true, ..v }),
        fresh(model).pending.len() == 0 && !fresh(model).done && !fresh(model).finished
            && fresh(model).stream_id is None && fresh(model).model == model,
{
}

/// Every frame goes out exactly as it came in. Only one whose payload is `[DONE]` finishes
/// the relay, and it drops what waits behind it; any other leaves all but the stream's id
/// as it was.
pub proof fn law_every_frame_passes_untouched(v: RelayView, frame: Seq<u8>)
    ensures
        frame_step(v, frame).1 == frame,
        payload_of(frame) == Some(encode_utf8("[DONE]"@)) ==> frame_step(v, frame).0 == (
        RelayView { pending: seq![], done: true, finished: true, ..v }),
        payload_of(frame) != Some(encode_utf8("[DONE]"@)) ==> frame_step(v, frame).0 == (
        RelayView {
            stream_id: match v.stream_id {
                Some(id) => Some(id),
                None => match payload_of(frame) {
                    Some(payload) => convert::top_level_text(payload, encode_utf8("id"@)),
                    None => None,
                },
            },
            ..v
        }),
{
}

/// Of what waits, the first whole frame is handed out and the rest goes on waiting; where
/// there is no whole frame, more is read. Nothing is handed out after the end.
pub proof fn law_frames_are_handed_out_in_order(v: RelayView, frame: Seq<u8>, rest: Seq<u8>)
    requires
        !v.finished,
        v.pending == frame + rest,
        frame.len() >= 2,
        frame[frame.len() - 2] == 0x0a,
        frame[frame.len() - 1] == 0x0a,
        forall|k: int| 0 <= k < frame.len() - 2 ==> !(#[trigger] frame[k] == 0x0a && frame[k + 1]
            == 0x0a),
    ensures
        step(v).1 == StepView::Emit(frame),
        step(v).0 == frame_step(RelayView { pending: rest, ..v }, frame).0,
{
    let end = frame.len() as int;
    let s = v.pending;
    assert(s[end - 2] == frame[end - 2] && s[end - 1] == frame[end - 1]);
    assert(boundary_at(s, end - 2));
    assert forall|k: int| 0 <= k < end - 2 implies !#[trigger] boundary_at(s, k) by {
        assert(s[k] == frame[k] && s[k + 1] == frame[k + 1]);
    }
    lemma_frame_end(s, 0, end - 2);
    assert(s.take(end) =~= frame);
    assert(s.skip(end) =~= rest);
}

/// Without two newlines in a row there is nothing to hand out yet: the relay reads on.
pub proof fn law_half_a_frame_waits(v: RelayView)
    requires
        !v.finished,
        forall|k: int| 0 <= k < v.pending.len() - 1 ==> !(#[trigger] v.pending[k] == 0x0a
            && v.pending[k + 1] == 0x0a),
    ensures
        step(v) == (v, StepView::Read),
{
    assert forall|k: int| 0 <= k implies !#[trigger] boundary_at(v.pending, k) by {
        if k < v.pending.len() - 1 {
            assert(v.pending[k] == v.pending[k]);
        }
    }
    lemma_no_frame_end(v.pending, 0);
}

/// The text of a truncation frame, with the id of the stream or the one that stands in
/// for it, the model, and the cause.
pub proof fn law_truncations_are_written_so(
    id: Option<Seq<char>>,
    model: Seq<char>,
    message: Seq<char>,
)
    ensures
        truncation_text(id, model, message) == "data: {\"id\":"@ + convert::json_string(
            id.unwrap_or("llm-relay-0"@),
        ) + ",\"object\":\"chat.completion.chunk\",\"model\":"@ + convert::json_string(model)
            + ",\"choices\":[{\"index\":0,\"delta\":{},\"finish_reason\":\"length\"}],\"error\":{\"message\":"@
            + convert::json_string("upstream stream failed: "@ + message) + "}}\n\n"@,
{
}

} // verus!
