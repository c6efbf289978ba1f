//! The decisions of the serving process: what the accept loop does next, and what the
//! health probe makes of the bytes it reads.

use vstd::prelude::*;
use vstd::utf8::*;

use crate::text;

verus! {

/// A connection that opens and then sends nothing is dropped after so long.
pub const HEADER_READ_TIMEOUT_SECS: u64 = 30;

/// Long enough for an in-flight completion to finish. The orchestrator's stop grace period
/// must be above this, or it will kill the process mid-drain.
pub const SHUTDOWN_GRACE_SECS: u64 = 25;

/// How long the health probe waits for a connection, a read or a write.
pub const HEALTHCHECK_TIMEOUT_SECS: u64 = 2;

// ---------------------------------------------------------------------------
// The accept loop
// ---------------------------------------------------------------------------

/// Where the serving process is in its life.
#[derive(Clone, Copy, Debug, PartialEq, Eq, Structural)]
pub enum Phase {
    /// Taking connections.
    Accepting,
    /// Letting open connections finish.
    Draining,
    /// Over.
    Stopped,
}

/// What the accept loop learns.
#[derive(Clone, Copy, Debug, PartialEq, Eq, Structural)]
pub enum Event {
    /// A connection was accepted.
    Connected,
    /// A connection could not be accepted.
    AcceptFailed,
    /// The process was asked to stop.
    StopRequested,
    /// The last open connection has finished.
    Drained,
    /// The grace period is over.
    GraceElapsed,
}

/// What the accept loop does.
#[derive(Clone, Copy, Debug, PartialEq, Eq, Structural)]
pub enum Action {
    /// Serve the connection, and accept the next one meanwhile.
    Serve,
    /// Wait for the next event.
    Wait,
    /// Accept no more, and wait so long for open connections to finish.
    Drain { grace_secs: u64 },
    /// Leave the loop.
    Stop,
}

/// The next phase of the accept loop, and what it does: only a request to stop ends the
/// accepting, and a drain ends with the last connection or with the grace period.
pub open spec fn next(phase: Phase, event: Event) -> (Phase, Action) {
    match (phase, event) {
        (Phase::Accepting, Event::Connected) => (Phase::Accepting, Action::Serve),
        (Phase::Accepting, Event::StopRequested) => (
            Phase::Draining,
            Action::Drain { grace_secs: SHUTDOWN_GRACE_SECS },
        ),
        (Phase::Accepting, _) => (Phase::Accepting, Action::Wait),
        (Phase::Draining, Event::Drained) => (Phase::Stopped, Action::Stop),
        (Phase::Draining, Event::GraceElapsed) => (Phase::Stopped, Action::Stop),
        (Phase::Draining, _) => (Phase::Draining, Action::Wait),
        (Phase::Stopped, _) => (Phase::Stopped, Action::Stop),
    }
}

/// One step of the accept loop. A connection that could not be accepted (for want of file
/// descriptors, or reset between queue and accept) must not take the listener down.
pub fn step(phase: Phase, event: Event) -> (res: (Phase, Action))
    ensures
        res == next(phase, event),
{
    match phase {
        Phase::Accepting => match event {
            Event::Connected => (Phase::Accepting, Action::Serve),
            Event::StopRequested => (
                Phase::Draining,
                Action::Drain { grace_secs: SHUTDOWN_GRACE_SECS },
            ),
            _ => (Phase::Accepting, Action::Wait),
        },
        Phase::Draining => match event {
            Event::Drained | Event::GraceElapsed => (Phase::Stopped, Action::Stop),
            _ => (Phase::Draining, Action::Wait),
        },
        Phase::Stopped => (Phase::Stopped, Action::Stop),
    }
}

/// The phase after a run of events.
pub open spec fn phase_after(phase: Phase, events: Seq<Event>) -> Phase
    decreases events.len(),
{
    if events.len() == 0 {
        phase
    } else {
        next(phase_after(phase, events.drop_last()), events.last()).0
    }
}

/// As long as nobody asks the process to stop it goes on accepting, whatever fails
/// meanwhile.
pub proof fn law_the_listener_stays_up(events: Seq<Event>)
    requires
        !events.contains(Event::StopRequested),
    ensures
        phase_after(Phase::Accepting, events) == Phase::Accepting,
        next(Phase::Accepting, Event::Connected).1 == Action::Serve,
    decreases events.len(),
{
    if events.len() > 0 {
        let front = events.drop_last();
        assert(!front.contains(Event::StopRequested)) by {
            if front.contains(Event::StopRequested) {
                let k = front.index_of(Event::StopRequested);
                assert(events[k] == Event::StopRequested);
            }
        }
        assert(events[events.len() - 1] != Event::StopRequested);
        law_the_listener_stays_up(front);
    }
}

// ---------------------------------------------------------------------------
// The health probe
// ---------------------------------------------------------------------------

/// The argument that turns the process into its own health probe.
pub const HEALTHCHECK_FLAG: &'static str = "--healthcheck";

/// The request that the health probe sends. Written by hand: the probe runs for the life
/// of the container, and an HTTP client to read one status line would cost memory for as
/// long.
pub const HEALTHCHECK_REQUEST: &'static str =
    "GET /healthz HTTP/1.1\r\nHost: localhost\r\nConnection: close\r\n\r\n";

/// How a healthy answer begins.
pub const HEALTHY: &'static str = "HTTP/1.1 200";

/// How many bytes the verdict rests on.
pub const WANT: usize = 12;

/// How many bytes the probe has room for.
pub const ROOM: usize = 64;

/// Whether the arguments, the program's own name apart, ask for the health probe.
pub fn wants_healthcheck(args: &[String]) -> (res: bool)
    ensures
        res == exists|i: int| 1 <= i < args@.len() && (#[trigger] args@[i])@ == HEALTHCHECK_FLAG@,
{
    let mut i: usize = 1;
    while i < args.len()
        invariant
            1 <= i,
            forall|k: int| 1 <= k < i && k < args@.len() ==> (#[trigger] args@[k])@
                != HEALTHCHECK_FLAG@,
        decreases args.len() - i,
    {
        if text::str_eq(args[i].as_str(), HEALTHCHECK_FLAG) {
            return true;
        }
        i += 1;
    }
    false
}

/// What the probe makes of what it has read.
pub enum Verdict {
    /// The status line is not there yet: read on.
    More,
    /// The service is up.
    Healthy,
    /// It is not, for this reason.
    Unhealthy(String),
}

/// What the probe makes of what it has read, in view.
pub enum VerdictView {
    More,
    Healthy,
    Unhealthy(Seq<char>),
}

impl View for Verdict {
    type V = VerdictView;

    open spec fn view(&self) -> VerdictView {
        match self {
            Verdict::More => VerdictView::More,
            Verdict::Healthy => VerdictView::Healthy,
            Verdict::Unhealthy(reason) => VerdictView::Unhealthy(reason@),
        }
    }
}

/// What is said of an answer that is not the healthy one.
pub open spec fn unhealthy_text(shown: Seq<char>) -> Seq<char> {
    "/healthz answered: "@ + text::trimmed(shown)
}

/// What is said of an answer that is not the healthy one, from the text that its bytes
/// show as.
pub fn unhealthy(shown: &str) -> (res: String)
    ensures
        res@ == unhealthy_text(shown@),
{
    let mut out = "/healthz answered: ".to_owned();
    out.push_str(text::trim(shown));
    out
}

/// Whether an answer begins as a healthy one does.
pub open spec fn is_healthy(seen: Seq<u8>) -> bool {
    text::occurs_at(seen, encode_utf8(HEALTHY@), 0)
}

/// The verdict once a read has brought `chunk` behind what was there: an empty read is a
/// closed connection, and a read is not guaranteed to deliver the whole status line.
pub open spec fn verdict(before: Seq<u8>, chunk: Seq<u8>) -> VerdictView {
    let seen = before + chunk;
    if chunk.len() == 0 {
        VerdictView::Unhealthy(
            "/healthz closed after "@ + text::decimal(before.len()) + " bytes"@,
        )
    } else if seen.len() < WANT {
        VerdictView::More
    } else if is_healthy(seen) {
        VerdictView::Healthy
    } else {
        VerdictView::Unhealthy(unhealthy_text(text::shown_text(seen)))
    }
}

/// A health probe: the bytes of the answer read so far.
pub struct Healthcheck {
    seen: Vec<u8>,
}

impl View for Healthcheck {
    type V = Seq<u8>;

    closed spec fn view(&self) -> Seq<u8> {
        self.seen@
    }
}

impl Healthcheck {
    /// A probe that has read nothing.
    pub fn new() -> (res: Healthcheck)
        ensures
            res@ == Seq::<u8>::empty(),
    {
        Healthcheck { seen: Vec::new() }
    }

    /// How many bytes the next read may bring.
    pub fn room(&self) -> (res: usize)
        requires
            self@.len() <= ROOM,
        ensures
            res == ROOM - self@.len(),
    {
        ROOM - self.seen.len()
    }

    /// What to make of a read.
    pub fn on_read(&mut self, chunk: &[u8]) -> (res: Verdict)
        requires
            old(self)@.len() + chunk@.len() <= ROOM,
        ensures
            res@ == verdict(old(self)@, chunk@),
            final(self)@ == old(self)@ + chunk@,
    {
        if chunk.len() == 0 {
            let mut reason = "/healthz closed after ".to_owned();
            text::push_decimal(&mut reason, self.seen.len() as u64);
            reason.push_str(" bytes");
            assert(self@ + chunk@ =~= self@);
            return Verdict::Unhealthy(reason);
        }
        self.seen.extend_from_slice(chunk);
        proof {
            reveal_strlit("HTTP/1.1 200");
            is_ascii_chars_encode_utf8(HEALTHY@);
        }
        if self.seen.len() < WANT {
            Verdict::More
        } else if text::bytes_at(self.seen.as_slice(), 0, HEALTHY.as_bytes()) {
            Verdict::Healthy
        } else {
            let shown = text::from_utf8_lossy(self.seen.as_slice());
            Verdict::Unhealthy(unhealthy(shown.as_str()))
        }
    }
}

/// The verdict that a run of reads leads to.
pub open spec fn probed(before: Seq<u8>, chunks: Seq<Seq<u8>>) -> VerdictView
    decreases chunks.len(),
{
    if chunks.len() == 0 {
        VerdictView::More
    } else {
        match verdict(before, chunks.first()) {
            VerdictView::More => probed(before + chunks.first(), chunks.drop_first()),
            done => done,
        }
    }
}

/// A probe says healthy of an answer that begins `HTTP/1.1 200`, and of no other, however
/// the answer was split into reads.
pub proof fn law_health_does_not_depend_on_the_split(before: Seq<u8>, chunks: Seq<Seq<u8>>)
    requires
        before.len() < WANT,
        forall|k: int| 0 <= k < chunks.len() ==> (#[trigger] chunks[k]).len() > 0,
        (before + chunks.flatten()).len() >= WANT,
    ensures
        (probed(before, chunks) is Healthy) == is_healthy(before + chunks.flatten()),
        probed(before, chunks) !is More,
    decreases chunks.len(),
{
    reveal_strlit("HTTP/1.1 200");
    is_ascii_chars_encode_utf8(HEALTHY@);
    if chunks.len() == 0 {
        assert(chunks.flatten() =~= Seq::<u8>::empty());
    } else {
        let first = chunks.first();
        let rest = chunks.drop_first();
        let seen = before + first;
        assert(chunks.flatten() == first + rest.flatten());
        assert(before + chunks.flatten() =~= seen + rest.flatten());
        assert(chunks[0].len() > 0);
        if seen.len() < WANT {
            assert forall|k: int| 0 <= k < rest.len() implies (#[trigger] rest[k]).len() > 0 by {
                assert(rest[k] == chunks[k + 1]);
            }
            law_health_does_not_depend_on_the_split(seen, rest);
        } else {
            let whole = before + chunks.flatten();
            let n = encode_utf8(HEALTHY@).len() as int;
            assert(n == 12);
            assert(seen.subrange(0, n) =~= whole.subrange(0, n));
        }
    }
}

/// The accept loop serves every connection it accepts while it is accepting, drains when
/// it is asked to stop, and stops when the last connection has finished or the grace
/// period is over, whichever comes first; it never takes up accepting again.
pub proof fn law_the_accept_loop_goes_forward(event: Event, phase: Phase)
    ensures
        next(Phase::Accepting, Event::Connected) == (Phase::Accepting, Action::Serve),
        next(Phase::Accepting, Event::StopRequested) == (
            Phase::Draining,
            Action::Drain { grace_secs: 25 },
        ),
        event != Event::StopRequested ==> next(Phase::Accepting, event).0 == Phase::Accepting,
        event != Event::StopRequested && event != Event::Connected ==> next(
            Phase::Accepting,
            event,
        ).1 == Action::Wait,
        event == Event::Drained || event == Event::GraceElapsed ==> next(Phase::Draining, event)
            == (Phase::Stopped, Action::Stop),
        event != Event::Drained && event != Event::GraceElapsed ==> next(Phase::Draining, event)
            == (Phase::Draining, Action::Wait),
        next(Phase::Stopped, event) == (Phase::Stopped, Action::Stop),
        phase != Phase::Accepting ==> next(phase, event).0 != Phase::Accepting && next(
            phase,
            event,
        ).1 != Action::Serve,
{
}

/// A probe reads on until it has twelve bytes. Then the service is up exactly where they
/// are `HTTP/1.1 200`; if not, the probe says what was answered, and if the connection
/// closes first, after how many bytes.
pub proof fn law_probes_judge_by_the_status_line(before: Seq<u8>, chunk: Seq<u8>)
    ensures
        chunk.len() == 0 ==> verdict(before, chunk) == VerdictView::Unhealthy(
            "/healthz closed after "@ + text::decimal(before.len()) + " bytes"@,
        ),
        chunk.len() > 0 && before.len() + chunk.len() < 12 ==> verdict(before, chunk)
            == VerdictView::More,
        chunk.len() > 0 && before.len() + chunk.len() >= 12 ==> {
            let seen = before + chunk;
            verdict(before, chunk) == (if seen.take(12) == encode_utf8("HTTP/1.1 200"@) {
                VerdictView::Healthy
            } else {
                VerdictView::Unhealthy(
                    "/healthz answered: "@ + text::trimmed(text::shown_text(seen)),
                )
            })
        },
{
    reveal_strlit("HTTP/1.1 200");
    is_ascii_chars_encode_utf8("HTTP/1.1 200"@);
    let seen = before + chunk;
    if seen.len() >= 12 {
        assert(seen.take(12) =~= seen.subrange(0, 12));
    }
}

/// How long the process waits for a request head, for a drain, and for its own probe; and
/// what that probe asks.
pub proof fn law_waits_are_bounded()
    ensures
        HEADER_READ_TIMEOUT_SECS == 30,
        SHUTDOWN_GRACE_SECS == 25,
        HEALTHCHECK_TIMEOUT_SECS == 2,
        WANT == 12,
        ROOM == 64,
        HEALTHCHECK_FLAG@ == "--healthcheck"@,
        HEALTHCHECK_REQUEST@
            == "GET /healthz HTTP/1.1\r\nHost: localhost\r\nConnection: close\r\n\r\n"@,
{
}

} // verus!
