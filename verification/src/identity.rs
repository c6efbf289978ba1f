//! Upstream identity: the header set a genuine upstream client sends, and the request
//! and session ID minting behind it. Pure: the clock reading and the last ID handed out
//! are passed in.

use vstd::prelude::*;
use vstd::utf8::*;

use crate::text;

verus! {

/// The agent string a real upstream CLI sends; used only when the caller did not supply
/// its own (a caller that matches [`NEEDLE`] always wins).
pub const DEFAULT_UA: &'static str = "opencode/1.17.15 ai-sdk/provider-utils/4.0.23 runtime/bun/1.3.14";

pub const DEFAULT_CLIENT: &'static str = "cli";

pub const DEFAULT_PROJECT: &'static str = "global";

pub const DEFAULT_ACCEPT: &'static str = "*/*";

/// The substring that marks a caller as a genuine upstream client, so its own agent
/// string is kept rather than replaced.
pub const NEEDLE: &'static str = "opencode";

pub const H_CLIENT: &'static str = "x-opencode-client";

pub const H_PROJECT: &'static str = "x-opencode-project";

pub const H_REQUEST: &'static str = "x-opencode-request";

pub const H_SESSION: &'static str = "x-opencode-session";

// ---------------------------------------------------------------------------
// IDs
// ---------------------------------------------------------------------------

/// The low 48 bits: the part of the ordered clock that goes into an ID.
pub const ORDERED_MASK: u64 = 0xFFFF_FFFF_FFFF;

/// How many random characters close an ID.
pub const RANDOM_CHARS: usize = 14;

/// The last `millis << 12 | counter` handed out, so IDs minted inside the same
/// millisecond still differ, and still ascend, in their ordered half.
pub struct IdClock {
    pub last: u64,
}

/// The ordered value that follows `last` at the millisecond `now`: the millisecond
/// scaled by 0x1000 with a counter in the low 12 bits, which restarts on every new
/// millisecond. A clock that went backwards keeps counting off the last value.
pub open spec fn tick(last: u64, now: u64) -> u64 {
    if now > last >> 12 {
        (now << 12) | 1
    } else {
        (last + 1) as u64
    }
}

impl IdClock {
    /// Whether the clock can hand out another value at the millisecond `now`: the one
    /// case it cannot is a count that has used up all 64 bits.
    pub open spec fn can_tick(self, now: u64) -> bool {
        now > self.last >> 12 || self.last < u64::MAX
    }

    /// A clock that has handed out nothing.
    pub fn new() -> (clock: Self)
        ensures
            clock.last == 0,
    {
        IdClock { last: 0 }
    }

    /// Whether an ID can be minted at the millisecond `now_millis`.
    pub fn can_mint(&self, now_millis: u64) -> (res: bool)
        ensures
            res == self.can_tick(now_millis),
    {
        now_millis > self.last >> 12 || self.last < u64::MAX
    }
}

/// Ordered half of an ID.
pub fn next_ordered(clock: &mut IdClock, now_millis: u64) -> (next: u64)
    requires
        old(clock).can_tick(now_millis),
    ensures
        next == tick(old(clock).last, now_millis),
        final(clock).last == next,
{
    let next = if now_millis > clock.last >> 12 {
        (now_millis << 12) | 1
    } else {
        clock.last + 1
    };
    clock.last = next;
    next
}

/// The part of an ordered value that goes into an ID: its low 48 bits, counted down from
/// the top where the newest is to sort first.
pub open spec fn ordered_part(ordered: u64, descending: bool) -> u64 {
    if descending {
        (ORDERED_MASK - ordered % 0x1_0000_0000_0000) as u64
    } else {
        ordered % 0x1_0000_0000_0000
    }
}

/// Apply the descending inversion to a 48-bit ordered value.
pub fn ordered_id(ordered: u64, descending: bool) -> (res: u64)
    ensures
        res == ordered_part(ordered, descending),
        res <= ORDERED_MASK,
{
    let low = ordered & ORDERED_MASK;
    assert(ordered & 0xFFFF_FFFF_FFFF == ordered % 0x1_0000_0000_0000) by (bit_vector);
    if descending {
        assert(!low & 0xFFFF_FFFF_FFFF == 0xFFFF_FFFF_FFFF - low) by (bit_vector)
            requires
                low <= 0xFFFF_FFFF_FFFF,
        ;
        !low & ORDERED_MASK
    } else {
        low
    }
}

/// One splitmix64 step.
pub open spec fn mixed(seed: u64) -> u64 {
    let a = seed.wrapping_add(0x9E37_79B9_7F4A_7C15);
    let b = (a ^ (a >> 30)).wrapping_mul(0xBF58_476D_1CE4_E5B9);
    let c = (b ^ (b >> 27)).wrapping_mul(0x94D0_49BB_1331_11EB);
    c ^ (c >> 31)
}

/// One splitmix64 step: well-distributed, deterministic per seed, dependency-free.
pub fn splitmix64(x: u64) -> (res: u64)
    ensures
        res == mixed(x),
{
    let a = x.wrapping_add(0x9E37_79B9_7F4A_7C15);
    let b = (a ^ (a >> 30)).wrapping_mul(0xBF58_476D_1CE4_E5B9);
    let c = (b ^ (b >> 27)).wrapping_mul(0x94D0_49BB_1331_11EB);
    c ^ (c >> 31)
}

/// The base62 digit of a number below 62: digits, then capitals, then small letters.
pub open spec fn base62_digit(d: nat) -> char {
    if d < 10 {
        (0x30 + d) as char
    } else if d < 36 {
        (0x41 + (d - 10)) as char
    } else {
        (0x61 + (d - 36)) as char
    }
}

fn base62_char(d: u8) -> (res: char)
    requires
        d < 62,
    ensures
        res == base62_digit(d as nat),
{
    if d < 10 {
        (0x30 + d) as char
    } else if d < 36 {
        (0x41 + (d - 10)) as char
    } else {
        (0x61 + (d - 36)) as char
    }
}

/// The low `k` hexadecimal digits of `n`, the highest first.
pub open spec fn hex_digits(n: u64, k: nat) -> Seq<char>
    decreases k,
{
    if k == 0 {
        seq![]
    } else {
        hex_digits(n / 16, (k - 1) as nat).push(text::hex_digit((n % 16) as nat))
    }
}

fn push_hex(out: &mut String, n: u64, k: usize)
    ensures
        final(out)@ == old(out)@ + hex_digits(n, k as nat),
    decreases k,
{
    if k > 0 {
        push_hex(out, n / 16, k - 1);
        out.push(text::hex_char((n % 16) as u8));
    }
    assert(out@ == old(out)@ + hex_digits(n, k as nat));
}

/// The state of the generator after `k` steps from `seed`.
pub open spec fn mixed_times(seed: u64, k: nat) -> u64
    decreases k,
{
    if k == 0 {
        seed
    } else {
        mixed(mixed_times(seed, (k - 1) as nat))
    }
}

/// The `k` base62 characters that the generator yields from `seed`.
pub open spec fn random_chars(seed: u64, k: nat) -> Seq<char> {
    Seq::new(k, |i: int| base62_digit((mixed_times(seed, (i + 1) as nat) % 62) as nat))
}

/// The ID made of a prefix and the ordered part of the clock.
pub open spec fn id_text(prefix: Seq<char>, part: u64) -> Seq<char> {
    prefix + seq!['_'] + hex_digits(part, 12) + random_chars(part, RANDOM_CHARS as nat)
}

/// Mint an upstream-style ID: `<prefix>_`, then the low 48 bits of the ordered clock as
/// 12 hex digits, then 14 random base62 characters: the 26-character shape the real
/// client sends (e.g. `msg_006fd964c00106WbJR7y2D5wPM`).
///
/// `descending` inverts the ordered half, which is how the upstream client mints session
/// IDs so the newest sorts first.
pub fn mint_id(clock: &mut IdClock, prefix: &str, descending: bool, now_millis: u64) -> (id: String)
    requires
        old(clock).can_tick(now_millis),
    ensures
        id@ == id_text(prefix@, ordered_part(tick(old(clock).last, now_millis), descending)),
        final(clock).last == tick(old(clock).last, now_millis),
{
    let ordered = ordered_id(next_ordered(clock, now_millis), descending);
    let mut id = prefix.to_owned();
    id.push('_');
    push_hex(&mut id, ordered, 12);
    let ghost front = id@;
    let mut seed = ordered;
    let mut n: usize = 0;
    while n < RANDOM_CHARS
        invariant
            n <= RANDOM_CHARS,
            seed == mixed_times(ordered, n as nat),
            id@ == front + random_chars(ordered, n as nat),
        decreases RANDOM_CHARS - n,
    {
        seed = splitmix64(seed);
        id.push(base62_char((seed % 62) as u8));
        n += 1;
        assert(id@ == front + random_chars(ordered, n as nat));
    }
    id
}

// ---------------------------------------------------------------------------
// Headers
// ---------------------------------------------------------------------------

/// Whether `needle` stands somewhere in `hay`, up to the case of ASCII letters.
pub open spec fn holds_ignore_case(hay: Seq<u8>, needle: Seq<u8>) -> bool {
    exists|i: int|
        0 <= i && i + needle.len() <= hay.len() && text::eq_ignore_case(
            #[trigger] hay.subrange(i, i + needle.len()),
            needle,
        )
}

/// Case-insensitive substring test that allocates nothing.
pub fn contains_ignore_ascii_case(haystack: &str, needle: &str) -> (res: bool)
    ensures
        res == holds_ignore_case(encode_utf8(haystack@), encode_utf8(needle@)),
{
    let hay = haystack.as_bytes();
    let wanted = needle.as_bytes();
    if hay.len() < wanted.len() {
        return false;
    }
    let mut i: usize = 0;
    while i <= hay.len() - wanted.len()
        invariant
            wanted.len() <= hay.len(),
            i <= hay.len() - wanted.len() + 1,
            hay@ == encode_utf8(haystack@),
            wanted@ == encode_utf8(needle@),
            forall|k: int|
                0 <= k < i ==> !text::eq_ignore_case(
                    #[trigger] hay@.subrange(k, k + wanted@.len()),
                    wanted@,
                ),
        decreases hay.len() - i,
    {
        if text::bytes_at_ignore_case(hay, i, wanted) {
            return true;
        }
        if i == hay.len() - wanted.len() {
            return false;
        }
        i += 1;
    }
    false
}

/// Headers as names and values.
pub open spec fn pairs(headers: Seq<(String, String)>) -> Seq<(Seq<char>, Seq<char>)> {
    headers.map_values(|h: (String, String)| (h.0@, h.1@))
}

/// The value of the first header with the given name, whatever the case of its letters.
pub open spec fn first_value(
    headers: Seq<(Seq<char>, Seq<char>)>,
    name: Seq<char>,
) -> Option<Seq<char>>
    decreases headers.len(),
{
    if headers.len() == 0 {
        None
    } else if text::eq_ignore_case(encode_utf8(headers[0].0), encode_utf8(name)) {
        Some(headers[0].1)
    } else {
        first_value(headers.drop_first(), name)
    }
}

/// The caller's headers; none where there are none to look at.
pub open spec fn caller_pairs(incoming: Option<&[(String, String)]>) -> Seq<
    (Seq<char>, Seq<char>),
> {
    match incoming {
        Some(headers) => pairs(headers@),
        None => seq![],
    }
}

/// The caller's own value for `name`, if it sent one.
pub(crate) fn borrowed(incoming: Option<&[(String, String)]>, name: &str) -> (res: Option<String>)
    ensures
        match first_value(caller_pairs(incoming), name@) {
            Some(value) => res matches Some(found) && found@ == value,
            None => res is None,
        },
{
    match incoming {
        None => None,
        Some(headers) => {
            let mut i: usize = 0;
            assert(pairs(headers@).skip(0) == pairs(headers@));
            while i < headers.len()
                invariant
                    i <= headers@.len(),
                    first_value(pairs(headers@).skip(i as int), name@) == first_value(
                        pairs(headers@),
                        name@,
                    ),
                    caller_pairs(incoming) == pairs(headers@),
                decreases headers@.len() - i,
            {
                proof {
                    assert(pairs(headers@).skip(i as int).drop_first() == pairs(headers@).skip(
                        i + 1,
                    ));
                    assert(pairs(headers@).skip(i as int)[0] == (
                        headers@[i as int].0@,
                        headers@[i as int].1@,
                    ));
                }
                if text::str_eq_ignore_case(headers[i].0.as_str(), name) {
                    return Some(headers[i].1.clone());
                }
                i += 1;
            }
            None
        },
    }
}

/// What the caller sent of the six headers that it may own.
pub struct Caller {
    pub agent: Option<Seq<char>>,
    pub accept: Option<Seq<char>>,
    pub client: Option<Seq<char>>,
    pub project: Option<Seq<char>>,
    pub session: Option<Seq<char>>,
    pub request: Option<Seq<char>>,
}

/// What a list of headers holds of the six.
pub open spec fn caller_of(headers: Seq<(Seq<char>, Seq<char>)>) -> Caller {
    Caller {
        agent: first_value(headers, "user-agent"@),
        accept: first_value(headers, "accept"@),
        client: first_value(headers, H_CLIENT@),
        project: first_value(headers, H_PROJECT@),
        session: first_value(headers, H_SESSION@),
        request: first_value(headers, H_REQUEST@),
    }
}

/// The caller's value where it sent one, else the default.
pub open spec fn chosen(sent: Option<Seq<char>>, default: Seq<char>) -> Seq<char> {
    match sent {
        Some(value) => value,
        None => default,
    }
}

/// The agent string: the caller's where it names a genuine upstream client.
pub open spec fn chosen_agent(sent: Option<Seq<char>>) -> Seq<char> {
    match sent {
        Some(value) => if holds_ignore_case(encode_utf8(value), encode_utf8(NEEDLE@)) {
            value
        } else {
            DEFAULT_UA@
        },
        None => DEFAULT_UA@,
    }
}

/// The six headers that go upstream.
pub open spec fn upstream_pairs(
    caller: Caller,
    fallback_session: Seq<char>,
    minted: Seq<char>,
) -> Seq<(Seq<char>, Seq<char>)> {
    seq![
        ("user-agent"@, chosen_agent(caller.agent)),
        ("accept"@, chosen(caller.accept, DEFAULT_ACCEPT@)),
        (H_CLIENT@, chosen(caller.client, DEFAULT_CLIENT@)),
        (H_PROJECT@, chosen(caller.project, DEFAULT_PROJECT@)),
        (H_SESSION@, chosen(caller.session, fallback_session)),
        (H_REQUEST@, chosen(caller.request, minted)),
    ]
}

/// The request ID minted when the last ordered value was `last`.
pub open spec fn request_id(last: u64, now: u64) -> Seq<char> {
    id_text("msg"@, ordered_part(tick(last, now), false))
}

fn or_default(value: Option<String>, default: &str) -> (res: String)
    ensures
        res@ == (match value {
            Some(v) => v@,
            None => default@,
        }),
{
    match value {
        Some(v) => v,
        None => default.to_owned(),
    }
}

/// Build the header set a genuine upstream client sends. This is a whitelist, not a
/// filtered relay: whatever the caller sent, upstream sees the same shape every time, so
/// any caller still presents the upstream profile. Caller values win where they exist,
/// so a real upstream client passes through untouched.
///
/// `fallback_session` is the process-wide session tag (minted once); the request ID is
/// minted fresh per call. `Authorization`, `Content-Type` and `Content-Length` are set
/// on the request itself and never appear here.
pub fn upstream_headers(
    clock: &mut IdClock,
    incoming: Option<&[(String, String)]>,
    fallback_session: &str,
    now_millis: u64,
) -> (out: Vec<(String, String)>)
    requires
        caller_of(caller_pairs(incoming)).request is Some || old(clock).can_tick(now_millis),
    ensures
        pairs(out@) == upstream_pairs(
            caller_of(caller_pairs(incoming)),
            fallback_session@,
            request_id(old(clock).last, now_millis),
        ),
        final(clock).last == (if caller_of(caller_pairs(incoming)).request is Some {
            old(clock).last
        } else {
            tick(old(clock).last, now_millis)
        }),
{
    let mut out: Vec<(String, String)> = Vec::new();
    // A caller that is itself an upstream client keeps its own agent string; anything
    // else would otherwise announce its own runtime.
    let agent = match borrowed(incoming, "user-agent") {
        Some(value) => if contains_ignore_ascii_case(value.as_str(), NEEDLE) {
            value
        } else {
            DEFAULT_UA.to_owned()
        },
        None => DEFAULT_UA.to_owned(),
    };
    out.push(("user-agent".to_owned(), agent));
    out.push(("accept".to_owned(), or_default(borrowed(incoming, "accept"), DEFAULT_ACCEPT)));
    out.push((H_CLIENT.to_owned(), or_default(borrowed(incoming, H_CLIENT), DEFAULT_CLIENT)));
    out.push((H_PROJECT.to_owned(), or_default(borrowed(incoming, H_PROJECT), DEFAULT_PROJECT)));
    // The session tag is conversation-scoped, so a caller's own value is kept for its
    // whole conversation, while a synthesized one is per process.
    out.push((H_SESSION.to_owned(), or_default(borrowed(incoming, H_SESSION), fallback_session)));
    let request = match borrowed(incoming, H_REQUEST) {
        Some(value) => value,
        None => mint_id(clock, "msg", false, now_millis),
    };
    out.push((H_REQUEST.to_owned(), request));
    assert(pairs(out@) =~= upstream_pairs(
        caller_of(caller_pairs(incoming)),
        fallback_session@,
        request_id(old(clock).last, now_millis),
    ));
    out
}

// ---------------------------------------------------------------------------
// What holds of IDs and headers
// ---------------------------------------------------------------------------

/// How many ordered values there are before their low 48 bits come round again.
pub open spec fn ordered_span() -> int {
    0x1_0000_0000_0000
}

/// Ordered values ascend, also when the clock stands still or goes backwards. (A count of
/// milliseconds that leaves no room for the counter is out of reach of any calendar.)
pub proof fn law_ordered_values_ascend(last: u64, now: u64)
    requires
        (IdClock { last }).can_tick(now),
        now < 0x10_0000_0000_0000,
    ensures
        tick(last, now) > last,
{
    if now > last >> 12 {
        assert((now << 12) | 1 > last) by (bit_vector)
            requires
                now > last >> 12,
                now < 0x10_0000_0000_0000,
        ;
    }
}

/// The value after `n` ticks in the same millisecond.
pub open spec fn ticked(last: u64, now: u64, n: nat) -> u64
    decreases n,
{
    if n == 0 {
        last
    } else {
        tick(ticked(last, now, (n - 1) as nat), now)
    }
}

/// After the first tick, the others in the same millisecond count up by one.
proof fn lemma_ticked(last: u64, now: u64, n: nat)
    requires
        (IdClock { last }).can_tick(now),
        now < 0x10_0000_0000_0000,
        n > 0,
        tick(last, now) + n <= u64::MAX,
    ensures
        ticked(last, now, n) == tick(last, now) + (n - 1),
        now <= ticked(last, now, n) >> 12,
    decreases n,
{
    if n == 1 {
        assert(ticked(last, now, 0) == last);
        if now > last >> 12 {
            assert(((now << 12) | 1) >> 12 == now) by (bit_vector)
                requires
                    now < 0x10_0000_0000_0000,
            ;
        } else {
            let next = (last + 1) as u64;
            assert(next >> 12 >= last >> 12) by (bit_vector)
                requires
                    next >= last,
            ;
        }
    } else {
        lemma_ticked(last, now, (n - 1) as nat);
        let before = ticked(last, now, (n - 1) as nat);
        let next = (before + 1) as u64;
        assert(next >> 12 >= before >> 12) by (bit_vector)
            requires
                next >= before,
        ;
    }
}

/// Fewer digits of a number, from the back.
proof fn lemma_hex_digits(n: u64, k: nat)
    ensures
        hex_digits(n, k).len() == k,
        forall|i: int|
            0 <= i < k ==> '0' <= #[trigger] hex_digits(n, k)[i] <= '9' || 'a' <= hex_digits(n, k)[i]
                <= 'f',
    decreases k,
{
    if k > 0 {
        lemma_hex_digits(n / 16, (k - 1) as nat);
        let front = hex_digits(n / 16, (k - 1) as nat);
        assert forall|i: int| 0 <= i < k implies '0' <= #[trigger] hex_digits(n, k)[i] <= '9' || 'a'
            <= hex_digits(n, k)[i] <= 'f' by {
            if i < k - 1 {
                assert(hex_digits(n, k)[i] == front[i]);
            }
        }
    }
}

/// The largest number that so many hexadecimal digits can write, and one.
pub open spec fn hex_span(k: nat) -> int
    decreases k,
{
    if k == 0 {
        1
    } else {
        16 * hex_span((k - 1) as nat)
    }
}

/// Whether `s` comes before `t` in the order of a dictionary: at the first place where
/// they differ, it has the lesser character.
pub open spec fn sorts_before(s: Seq<char>, t: Seq<char>) -> bool {
    exists|k: int| #[trigger] differ_at(s, t, k)
}

/// Whether `s` and `t` are the same before `k`, and `s` is less there.
pub open spec fn differ_at(s: Seq<char>, t: Seq<char>, k: int) -> bool {
    0 <= k < s.len() && k < t.len() && s.take(k) == t.take(k) && s[k] < t[k]
}

/// Of two numbers with the same count of digits, the lesser one sorts first.
proof fn lemma_hex_order(a: u64, b: u64, k: nat) -> (at: int)
    requires
        a < b,
        b < hex_span(k),
    ensures
        differ_at(hex_digits(a, k), hex_digits(b, k), at),
    decreases k,
{
    lemma_hex_digits(a, k);
    lemma_hex_digits(b, k);
    let fewer = (k - 1) as nat;
    let s = hex_digits(a, k);
    let t = hex_digits(b, k);
    let p = hex_digits(a / 16, fewer);
    let q = hex_digits(b / 16, fewer);
    lemma_hex_digits(a / 16, fewer);
    lemma_hex_digits(b / 16, fewer);
    if a / 16 < b / 16 {
        let at = lemma_hex_order(a / 16, b / 16, fewer);
        assert(s.take(at) =~= p.take(at));
        assert(t.take(at) =~= q.take(at));
        assert(s[at] == p[at] && t[at] == q[at]);
        at
    } else {
        assert(a / 16 == b / 16);
        assert(a % 16 < b % 16);
        assert(s.take(fewer as int) =~= p);
        assert(t.take(fewer as int) =~= q);
        assert(s[fewer as int] == text::hex_digit((a % 16) as nat));
        assert(t[fewer as int] == text::hex_digit((b % 16) as nat));
        fewer as int
    }
}

/// Twelve hexadecimal digits write 48 bits.
proof fn lemma_twelve_digits()
    ensures
        hex_span(12) == ordered_span(),
{
    reveal_with_fuel(hex_span, 13);
}

/// Of two IDs with the same prefix, the one with the lesser ordered part sorts first.
proof fn lemma_id_order(prefix: Seq<char>, a: u64, b: u64)
    requires
        a < b <= ORDERED_MASK,
    ensures
        sorts_before(id_text(prefix, a), id_text(prefix, b)),
        id_text(prefix, a) != id_text(prefix, b),
{
    lemma_twelve_digits();
    let at = lemma_hex_order(a, b, 12);
    lemma_hex_digits(a, 12);
    lemma_hex_digits(b, 12);
    let s = id_text(prefix, a);
    let t = id_text(prefix, b);
    let p = prefix + seq!['_'];
    let k = p.len() + at;
    let ha = hex_digits(a, 12);
    let hb = hex_digits(b, 12);
    assert(s[k] == ha[at] && t[k] == hb[at]);
    assert(s.take(k) =~= p + ha.take(at));
    assert(t.take(k) =~= p + hb.take(at));
    assert(differ_at(s, t, k));
}

/// IDs sort by age: of two ordered values from the same round of the 48-bit count, the
/// earlier one gives the ID that sorts first, and where the count runs down, the one that
/// sorts last, so that the newest comes first.
pub proof fn law_ids_sort_by_age(prefix: Seq<char>, earlier: u64, later: u64)
    requires
        earlier < later,
        earlier / 0x1_0000_0000_0000 == later / 0x1_0000_0000_0000,
    ensures
        sorts_before(
            id_text(prefix, ordered_part(earlier, false)),
            id_text(prefix, ordered_part(later, false)),
        ),
        sorts_before(
            id_text(prefix, ordered_part(later, true)),
            id_text(prefix, ordered_part(earlier, true)),
        ),
{
    lemma_id_order(prefix, ordered_part(earlier, false), ordered_part(later, false));
    lemma_id_order(prefix, ordered_part(later, true), ordered_part(earlier, true));
}

/// Ordered values less than one round of the 48-bit count apart give different IDs.
pub proof fn law_ids_differ(prefix: Seq<char>, a: u64, b: u64, descending: bool)
    requires
        a < b < a + ordered_span(),
    ensures
        id_text(prefix, ordered_part(a, descending)) != id_text(
            prefix,
            ordered_part(b, descending),
        ),
{
    let x = ordered_part(a, descending);
    let y = ordered_part(b, descending);
    assert(a % 0x1_0000_0000_0000 != b % 0x1_0000_0000_0000);
    if x < y {
        lemma_id_order(prefix, x, y);
    } else {
        lemma_id_order(prefix, y, x);
    }
}

/// IDs that are minted inside the same millisecond all differ.
pub proof fn law_ids_inside_a_millisecond_differ(
    prefix: Seq<char>,
    last: u64,
    now: u64,
    i: nat,
    j: nat,
    descending: bool,
)
    requires
        (IdClock { last }).can_tick(now),
        now < 0x10_0000_0000_0000,
        0 < i < j < i + ordered_span(),
        tick(last, now) + j <= u64::MAX,
    ensures
        id_text(prefix, ordered_part(ticked(last, now, i), descending)) != id_text(
            prefix,
            ordered_part(ticked(last, now, j), descending),
        ),
{
    lemma_ticked(last, now, i);
    lemma_ticked(last, now, j);
    law_ids_differ(prefix, ticked(last, now, i), ticked(last, now, j), descending);
}

/// Running the count down is its own inverse on 48 bits.
pub proof fn law_descending_inverts(ordered: u64)
    requires
        ordered <= ORDERED_MASK,
    ensures
        ordered_part(ordered_part(ordered, true), true) == ordered,
        ordered_part(ordered, true) == ORDERED_MASK - ordered,
{
}

/// An ID is its prefix, an underscore, twelve hexadecimal digits and fourteen letters or
/// digits.
pub proof fn law_ids_have_one_shape(prefix: Seq<char>, part: u64)
    ensures
        id_text(prefix, part).len() == prefix.len() + 27,
        id_text(prefix, part).take(prefix.len() as int) == prefix,
        id_text(prefix, part)[prefix.len() as int] == '_',
        forall|i: int|
            prefix.len() < i < prefix.len() + 13 ==> '0' <= #[trigger] id_text(prefix, part)[i]
                <= '9' || 'a' <= id_text(prefix, part)[i] <= 'f',
        forall|i: int|
            prefix.len() + 13 <= i < prefix.len() + 27 ==> '0' <= #[trigger] id_text(
                prefix,
                part,
            )[i] <= '9' || 'A' <= id_text(prefix, part)[i] <= 'Z' || 'a' <= id_text(
                prefix,
                part,
            )[i] <= 'z',
{
    lemma_hex_digits(part, 12);
    let id = id_text(prefix, part);
    let n = prefix.len() as int;
    assert(id.take(n) =~= prefix);
    assert forall|i: int| n < i < n + 13 implies '0' <= #[trigger] id[i] <= '9' || 'a' <= id[i]
        <= 'f' by {
        assert(id[i] == hex_digits(part, 12)[i - n - 1]);
    }
    assert forall|i: int| n + 13 <= i < n + 27 implies '0' <= #[trigger] id[i] <= '9' || 'A'
        <= id[i] <= 'Z' || 'a' <= id[i] <= 'z' by {
        let k = i - n - 13;
        assert(id[i] == random_chars(part, RANDOM_CHARS as nat)[k]);
    }
}

/// Whatever the caller sent, upstream sees the same six headers in the same order.
pub proof fn law_headers_have_one_shape(
    caller: Caller,
    fallback_session: Seq<char>,
    minted: Seq<char>,
)
    ensures
        upstream_pairs(caller, fallback_session, minted).map_values(
            |h: (Seq<char>, Seq<char>)| h.0,
        ) == seq!["user-agent"@, "accept"@, H_CLIENT@, H_PROJECT@, H_SESSION@, H_REQUEST@],
{
    assert(upstream_pairs(caller, fallback_session, minted).map_values(
        |h: (Seq<char>, Seq<char>)| h.0,
    ) =~= seq!["user-agent"@, "accept"@, H_CLIENT@, H_PROJECT@, H_SESSION@, H_REQUEST@]);
}

/// A genuine client, which sends all six and names itself in its agent string, passes
/// through untouched.
pub proof fn law_genuine_clients_pass_untouched(
    caller: Caller,
    fallback_session: Seq<char>,
    minted: Seq<char>,
)
    requires
        caller.agent is Some,
        holds_ignore_case(encode_utf8(caller.agent->0), encode_utf8(NEEDLE@)),
        caller.accept is Some,
        caller.client is Some,
        caller.project is Some,
        caller.session is Some,
        caller.request is Some,
    ensures
        upstream_pairs(caller, fallback_session, minted) == seq![
            ("user-agent"@, caller.agent->0),
            ("accept"@, caller.accept->0),
            (H_CLIENT@, caller.client->0),
            (H_PROJECT@, caller.project->0),
            (H_SESSION@, caller.session->0),
            (H_REQUEST@, caller.request->0),
        ],
{
}

/// A new millisecond starts a new count: the ordered value holds the millisecond, and one
/// in its low twelve bits. Within a millisecond, and when the clock goes backwards, the
/// value counts up by one.
pub proof fn law_ordered_values_hold_the_millisecond(last: u64, now: u64)
    requires
        now < 0x10_0000_0000_0000,
    ensures
        now > last / 4096 ==> tick(last, now) == now * 4096 + 1,
        now <= last / 4096 && last < u64::MAX ==> tick(last, now) == last + 1,
{
    assert(last >> 12 == last / 4096) by (bit_vector);
    assert((now << 12) | 1 == now * 4096 + 1) by (bit_vector)
        requires
            now < 0x10_0000_0000_0000,
    ;
}

/// What goes into an ID is the low 48 bits of the ordered value, or what is missing from
/// them to the top.
pub proof fn law_ids_hold_the_low_bits(ordered: u64)
    ensures
        ordered_part(ordered, false) == ordered % 0x1_0000_0000_0000,
        ordered_part(ordered, false) + ordered_part(ordered, true) == 0xFFFF_FFFF_FFFF,
{
}

/// The value of hexadecimal digits, the highest first, each by its place among the
/// sixteen.
pub open spec fn hex_read(s: Seq<char>) -> int
    decreases s.len(),
{
    if s.len() == 0 {
        0
    } else {
        16 * hex_read(s.drop_last()) + "0123456789abcdef"@.index_of(s.last())
    }
}

/// A hexadecimal digit has its value as its place.
proof fn lemma_hex_place(d: nat)
    requires
        d < 16,
    ensures
        "0123456789abcdef"@.index_of(text::hex_digit(d)) == d,
{
    let all = "0123456789abcdef"@;
    text::law_hex_digits_stand_in_order(d);
    reveal_strlit("0123456789abcdef");
    let k = all.index_of(all[d as int]);
    assert(all.contains(all[d as int]));
    assert(0 <= k < all.len() && all[k] == all[d as int]);
    text::law_hex_digits_stand_in_order(k as nat);
}

/// Digits read back as the number they were made of, as far as they reach.
proof fn lemma_hex_reads_back(n: u64, k: nat)
    requires
        n < hex_span(k),
    ensures
        hex_read(hex_digits(n, k)) == n,
    decreases k,
{
    if k > 0 {
        let fewer = (k - 1) as nat;
        lemma_hex_reads_back(n / 16, fewer);
        lemma_hex_place((n % 16) as nat);
        assert(hex_digits(n, k).drop_last() =~= hex_digits(n / 16, fewer));
    }
}

/// The twelve digits of an ID, read as a hexadecimal number, are its ordered part.
pub proof fn law_ids_carry_the_clock(prefix: Seq<char>, part: u64)
    requires
        part <= 0xFFFF_FFFF_FFFF,
    ensures
        hex_read(
            id_text(prefix, part).subrange((prefix.len() + 1) as int, (prefix.len() + 13) as int),
        ) == part,
{
    lemma_twelve_digits();
    lemma_hex_digits(part, 12);
    lemma_hex_reads_back(part, 12);
    assert(id_text(prefix, part).subrange(
        (prefix.len() + 1) as int,
        (prefix.len() + 13) as int,
    ) =~= hex_digits(part, 12));
}

/// A base62 digit is the character at its place among the sixty-two.
pub proof fn law_base62_digits_stand_in_order(d: nat)
    requires
        d < 62,
    ensures
        base62_digit(d)
            == "0123456789ABCDEFGHIJKLMNOPQRSTUVWXYZabcdefghijklmnopqrstuvwxyz"@[d as int],
{
    reveal_strlit("0123456789ABCDEFGHIJKLMNOPQRSTUVWXYZabcdefghijklmnopqrstuvwxyz");
}

/// One step of the generator, in whole numbers: two rounds of folding a number onto itself
/// and multiplying it, and a last fold.
pub proof fn law_the_generator_is_splitmix(x: u64)
    ensures
        ({
            let a = ((x + 0x9E37_79B9_7F4A_7C15) % 0x1_0000_0000_0000_0000) as u64;
            let b = (((a ^ (a >> 30)) * 0xBF58_476D_1CE4_E5B9) % 0x1_0000_0000_0000_0000) as u64;
            let c = (((b ^ (b >> 27)) * 0x94D0_49BB_1331_11EB) % 0x1_0000_0000_0000_0000) as u64;
            mixed(x) == c ^ (c >> 31)
        }),
{
}

/// The random half of an ID: each character comes from the next step of the generator,
/// which starts from the ordered part.
pub proof fn law_random_characters_come_from_the_generator(seed: u64, k: nat)
    ensures
        random_chars(seed, 0) == Seq::<char>::empty(),
        random_chars(seed, k + 1) == seq![
            "0123456789ABCDEFGHIJKLMNOPQRSTUVWXYZabcdefghijklmnopqrstuvwxyz"@[(mixed(seed)
                % 62) as int],
        ] + random_chars(mixed(seed), k),
{
    let first = base62_digit((mixed(seed) % 62) as nat);
    law_base62_digits_stand_in_order((mixed(seed) % 62) as nat);
    assert forall|i: int| 0 <= i < k + 1 implies random_chars(seed, k + 1)[i] == (seq![first]
        + random_chars(mixed(seed), k))[i] by {
        lemma_mixed_times(seed, i as nat);
        if i > 0 {
            assert((seq![first] + random_chars(mixed(seed), k))[i] == random_chars(
                mixed(seed),
                k,
            )[i - 1]);
        } else {
            assert(mixed_times(seed, 1) == mixed(mixed_times(seed, 0)));
        }
    }
    assert(random_chars(seed, k + 1) =~= seq![first] + random_chars(mixed(seed), k));
    assert(random_chars(seed, 0) =~= Seq::<char>::empty());
}

/// A step first, or a step last.
proof fn lemma_mixed_times(seed: u64, k: nat)
    ensures
        mixed_times(seed, k + 1) == mixed_times(mixed(seed), k),
    decreases k,
{
    if k > 0 {
        lemma_mixed_times(seed, (k - 1) as nat);
    } else {
        assert(mixed_times(seed, 1) == mixed(mixed_times(seed, 0)));
    }
}

/// An ID is put together of its prefix, an underscore, its digits and its random half.
pub proof fn law_ids_end_on_their_random_half(prefix: Seq<char>, part: u64)
    ensures
        id_text(prefix, part).skip((prefix.len() + 13) as int) == random_chars(part, 14),
{
    lemma_hex_digits(part, 12);
    assert(id_text(prefix, part).skip((prefix.len() + 13) as int) =~= random_chars(part, 14));
}

/// A needle is held exactly by what has it somewhere, up to the case of its letters.
pub proof fn law_needles_are_found(
    before: Seq<u8>,
    found: Seq<u8>,
    behind: Seq<u8>,
    needle: Seq<u8>,
)
    ensures
        text::eq_ignore_case(found, needle) ==> holds_ignore_case(before + found + behind, needle),
{
    if text::eq_ignore_case(found, needle) {
        text::law_case_is_all_that_is_ignored(found, needle);
        let hay = before + found + behind;
        let i = before.len() as int;
        assert(hay.subrange(i, i + needle.len()) =~= found);
    }
}

/// What holds a needle has it somewhere.
pub proof fn law_what_is_held_is_there(hay: Seq<u8>, needle: Seq<u8>) -> (at: int)
    requires
        holds_ignore_case(hay, needle),
    ensures
        0 <= at,
        at + needle.len() <= hay.len(),
        text::eq_ignore_case(hay.subrange(at, at + needle.len()), needle),
{
    choose|i: int|
        0 <= i && i + needle.len() <= hay.len() && text::eq_ignore_case(
            #[trigger] hay.subrange(i, i + needle.len()),
            needle,
        )
}

/// Of several headers with one name, in whatever case, the first one counts; a name that
/// is not there has no value.
pub proof fn law_the_first_value_counts(
    front: Seq<(Seq<char>, Seq<char>)>,
    sent: (Seq<char>, Seq<char>),
    behind: Seq<(Seq<char>, Seq<char>)>,
    name: Seq<char>,
)
    requires
        forall|i: int|
            0 <= i < front.len() ==> !text::eq_ignore_case(
                encode_utf8((#[trigger] front[i]).0),
                encode_utf8(name),
            ),
    ensures
        text::eq_ignore_case(encode_utf8(sent.0), encode_utf8(name)) ==> first_value(
            front + seq![sent] + behind,
            name,
        ) == Some(sent.1),
        first_value(front, name) is None,
    decreases front.len(),
{
    let list = front + seq![sent] + behind;
    if front.len() > 0 {
        let rest = front.drop_first();
        assert forall|i: int| 0 <= i < rest.len() implies !text::eq_ignore_case(
            encode_utf8((#[trigger] rest[i]).0),
            encode_utf8(name),
        ) by {
            assert(rest[i] == front[i + 1]);
        }
        assert(list[0] == front[0]);
        assert(list.drop_first() =~= rest + seq![sent] + behind);
        law_the_first_value_counts(rest, sent, behind, name);
    } else {
        assert(list[0] == sent);
    }
}

/// The caller's own value goes upstream wherever it sent one, and the value of a genuine
/// client's where it did not. Only the agent string is looked at: it is the caller's where
/// it names the upstream client.
pub proof fn law_caller_values_win(
    caller: Caller,
    fallback_session: Seq<char>,
    minted: Seq<char>,
)
    ensures
        ({
            let out = upstream_pairs(caller, fallback_session, minted);
            &&& out[1].1 == caller.accept.unwrap_or("*/*"@)
            &&& out[2].1 == caller.client.unwrap_or("cli"@)
            &&& out[3].1 == caller.project.unwrap_or("global"@)
            &&& out[4].1 == caller.session.unwrap_or(fallback_session)
            &&& out[5].1 == caller.request.unwrap_or(minted)
            &&& caller.agent is Some && holds_ignore_case(
                encode_utf8(caller.agent->0),
                encode_utf8("opencode"@),
            ) ==> out[0].1 == caller.agent->0
            &&& caller.agent is None || !holds_ignore_case(
                encode_utf8(caller.agent->0),
                encode_utf8("opencode"@),
            ) ==> out[0].1
                == "opencode/1.17.15 ai-sdk/provider-utils/4.0.23 runtime/bun/1.3.14"@
            &&& out.len() == 6
        }),
{
}

/// What a list holds of the six headers is the first value under each of their names.
pub proof fn law_callers_are_read_by_name(list: Seq<(Seq<char>, Seq<char>)>)
    ensures
        caller_of(list).agent == first_value(list, "user-agent"@),
        caller_of(list).accept == first_value(list, "accept"@),
        caller_of(list).client == first_value(list, "x-opencode-client"@),
        caller_of(list).project == first_value(list, "x-opencode-project"@),
        caller_of(list).session == first_value(list, "x-opencode-session"@),
        caller_of(list).request == first_value(list, "x-opencode-request"@),
{
}

/// A request ID is a message ID minted from the next ordered value.
pub proof fn law_request_ids_are_message_ids(last: u64, now: u64)
    ensures
        request_id(last, now) == id_text("msg"@, ordered_part(tick(last, now), false)),
{
}

/// Headers are seen as their names and values, in order.
pub proof fn law_headers_are_seen_as_they_are(headers: Seq<(String, String)>, i: int)
    requires
        0 <= i < headers.len(),
    ensures
        pairs(headers).len() == headers.len(),
        pairs(headers)[i] == (headers[i].0@, headers[i].1@),
{
}

/// A caller without headers has none of them.
pub proof fn law_no_headers_are_no_headers(headers: &[(String, String)])
    ensures
        caller_pairs(None).len() == 0,
        caller_pairs(Some(headers)) == pairs(headers@),
{
}

/// The clock can hand out a value in every millisecond after its last, and until its count
/// has used up all 64 bits.
pub proof fn law_the_clock_runs_out_last(clock: IdClock, now: u64)
    ensures
        clock.can_tick(now) == (now > clock.last / 4096 || clock.last < u64::MAX),
{
    let last = clock.last;
    assert(last >> 12 == last / 4096) by (bit_vector);
}

} // verus!
