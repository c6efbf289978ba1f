//! `GET /egress`: which source address upstream actually sees us from.
//!
//! ipify splits the two IP families across hostnames (`api.ipify.org` resolves A only,
//! `api6.ipify.org` AAAA only), which is what lets one request report both
//! independently.

use bytes::Bytes;
use vstd::prelude::*;
use vstd::utf8::*;

use crate::buffer;
use crate::config::{Config, Endpoint};
use crate::convert;
use crate::header;
use crate::object;
use crate::reply;
use crate::reply::Reply;
use crate::request::{Method, Outbound};
use crate::text;

verus! {

pub const V4_PROBE: &'static str = "https://api.ipify.org";

pub const V6_PROBE: &'static str = "https://api6.ipify.org";

/// A probe is a diagnostic, so it fails fast rather than holding the endpoint: a host
/// with no IPv6 route must not make `/egress` feel hung.
pub const PROBE_TIMEOUT_SECS: u64 = 4;

/// An address is at most 45 characters; anything larger is not an answer.
pub const MAX_PROBE_BODY: usize = 128;

/// The agent string that a probe goes out with.
pub const PROBE_AGENT: &'static str = "llm-relay/egress";

// ---------------------------------------------------------------------------
// One probe
// ---------------------------------------------------------------------------

/// The request that asks for our own address.
pub fn probe_request(uri: &Endpoint) -> (res: Outbound)
    ensures
        res@ == (crate::request::OutboundView {
            method: Method::Get,
            uri: uri@.text,
            headers: header::no_entries().insert("user-agent"@, reply::one(PROBE_AGENT@)),
            body: seq![],
        }),
{
    proof {
        reveal_strlit("user-agent");
        reveal_strlit("llm-relay/egress");
        is_ascii_chars_encode_utf8(PROBE_AGENT@);
    }
    let mut headers = header::new_headers();
    header::insert_header(&mut headers, "user-agent", header::value_from_static(PROBE_AGENT));
    Outbound { method: Method::Get, uri: uri.text.clone(), headers, body: Bytes::new() }
}

/// What the answer to a probe gives: the text that should be an address, or why there is
/// none.
pub open spec fn answer_text(status: u16, body: Seq<u8>) -> Result<Seq<char>, Seq<char>> {
    if !(200 <= status < 300) {
        Err("probe answered "@ + header::status_text(status))
    } else if valid_utf8(body) {
        Ok(text::trimmed(decode_utf8(body)))
    } else {
        Err(text::utf8_error_text(body))
    }
}

/// A text or the reason there is none, in view.
pub open spec fn outcome(res: Result<String, String>) -> Result<Seq<char>, Seq<char>> {
    match res {
        Ok(found) => Ok(found@),
        Err(cause) => Err(cause@),
    }
}

/// The text that the answer to a probe offers as an address. It is still to be parsed,
/// and is never echoed: the probe is a third party, so its body reaches the caller only
/// as an address this process validated.
pub fn probe_answer(status: u16, body: &[u8]) -> (res: Result<String, String>)
    requires
        100 <= status <= 999,
    ensures
        outcome(res) == answer_text(status, body@),
{
    if !(200 <= status && status < 300) {
        let mut cause = "probe answered ".to_owned();
        let shown = header::show_status(status);
        cause.push_str(shown.as_str());
        return Err(cause);
    }
    match text::from_utf8(body) {
        Ok(found) => Ok(text::trim(found).to_owned()),
        Err(cause) => Err(cause),
    }
}

/// How a probe ended.
pub enum Probed {
    /// No answer within the time allowed.
    TimedOut,
    /// The request, the answer or the address in it was no good, for this reason.
    Failed(String),
    /// An address, as it is displayed, and whether it is an IPv4 one.
    Address { ip: String, is_v4: bool },
}

/// The name of an IP family.
pub open spec fn family(v4: bool) -> Seq<char> {
    if v4 {
        "IPv4"@
    } else {
        "IPv6"@
    }
}

/// What a probe for one family reports.
pub open spec fn probe_report(shown_uri: Seq<char>, want_v4: bool, probed: Probed) -> Result<
    Seq<char>,
    Seq<char>,
> {
    match probed {
        Probed::TimedOut => Err(
            family(want_v4) + " probe timed out after "@ + text::decimal(PROBE_TIMEOUT_SECS as nat)
                + "s"@,
        ),
        Probed::Failed(cause) => Err(cause@),
        Probed::Address { ip, is_v4 } => if is_v4 == want_v4 {
            Ok(ip@)
        } else {
            Err(shown_uri + " answered "@ + ip@ + ", which is not "@ + family(want_v4))
        },
    }
}

/// What a probe for one family reports. Reporting an address as a family it is not would
/// be worse than reporting nothing.
pub fn probe(uri: &Endpoint, want_v4: bool, probed: Probed) -> (res: Result<String, String>)
    ensures
        outcome(res) == probe_report(uri@.shown, want_v4, probed),
{
    let name = if want_v4 {
        "IPv4"
    } else {
        "IPv6"
    };
    match probed {
        Probed::TimedOut => {
            let mut cause = name.to_owned();
            cause.push_str(" probe timed out after ");
            text::push_decimal(&mut cause, PROBE_TIMEOUT_SECS);
            cause.push_str("s");
            Err(cause)
        },
        Probed::Failed(cause) => Err(cause),
        Probed::Address { ip, is_v4 } => {
            if is_v4 == want_v4 {
                return Ok(ip);
            }
            let mut cause = uri.shown.clone();
            cause.push_str(" answered ");
            cause.push_str(ip.as_str());
            cause.push_str(", which is not ");
            cause.push_str(name);
            Err(cause)
        },
    }
}

// ---------------------------------------------------------------------------
// The report
// ---------------------------------------------------------------------------

/// The two members that report one family: the address or null, and the cause or null.
pub open spec fn member_text(name: Seq<char>, result: Result<Seq<char>, Seq<char>>) -> Seq<char> {
    let (ip, cause) = match result {
        Ok(ip) => (convert::json_string(ip), "null"@),
        Err(cause) => ("null"@, convert::json_string(cause)),
    };
    "\""@ + name + "\":"@ + ip + ",\""@ + name + "_error\":"@ + cause
}

/// `"<name>": <ip|null>, "<name>_error": <cause|null>`: the cause is foreign text, so it
/// goes through the escaper rather than straight between quotes.
pub fn write_member(out: &mut String, name: &str, result: &Result<String, String>)
    ensures
        final(out)@ == old(out)@ + member_text(name@, outcome(*result)),
{
    out.push_str("\"");
    out.push_str(name);
    out.push_str("\":");
    match result {
        Ok(ip) => convert::write_json_string(out, ip.as_str()),
        Err(_) => out.push_str("null"),
    }
    out.push_str(",\"");
    out.push_str(name);
    out.push_str("_error\":");
    match result {
        Ok(_) => out.push_str("null"),
        Err(cause) => convert::write_json_string(out, cause.as_str()),
    }
    assert(out@ =~= old(out)@ + member_text(name@, outcome(*result)));
}

/// The body of the report.
pub open spec fn report_text(
    v4: Result<Seq<char>, Seq<char>>,
    v6: Result<Seq<char>, Seq<char>>,
    host: Option<Seq<char>>,
) -> Seq<char> {
    let host_text = match host {
        Some(name) => name,
        None => seq![],
    };
    "{"@ + member_text("ipv4"@, v4) + ","@ + member_text("ipv6"@, v6) + ",\"upstream_host\":"@
        + convert::json_string(host_text) + "}"@
}

/// The status of the report. A host with no IPv6 route is ordinary, so one family
/// answering is a success. Neither answering means egress itself is broken.
pub open spec fn report_status(
    v4: Result<Seq<char>, Seq<char>>,
    v6: Result<Seq<char>, Seq<char>>,
) -> u16 {
    if v4 is Ok || v6 is Ok {
        200
    } else {
        502
    }
}

/// The answer to `GET /egress`, from what the two probes reported.
pub fn egress(cfg: &Config, v4: &Result<String, String>, v6: &Result<String, String>) -> (res:
    Reply)
    ensures
        res@ == reply::json_reply(
            report_status(outcome(*v4), outcome(*v6)),
            encode_utf8(report_text(outcome(*v4), outcome(*v6), cfg@.upstream.host)),
        ),
        res.status == (if *v4 is Err && *v6 is Err {
            502u16
        } else {
            200u16
        }),
{
    let mut out = String::new();
    out.push_str("{");
    write_member(&mut out, "ipv4", v4);
    out.push_str(",");
    write_member(&mut out, "ipv6", v6);
    out.push_str(",\"upstream_host\":");
    match &cfg.upstream.host {
        Some(host) => convert::write_json_string(&mut out, host.as_str()),
        None => {
            proof {
                reveal_strlit("");
                assert(""@ =~= Seq::<char>::empty());
            }
            convert::write_json_string(&mut out, "")
        },
    }
    out.push_str("}");
    assert(out@ =~= report_text(outcome(*v4), outcome(*v6), cfg@.upstream.host));
    let status: u16 = if v4.is_ok() || v6.is_ok() {
        200
    } else {
        502
    };
    reply::json_response(status, buffer::bytes_from_string(out))
}

// ---------------------------------------------------------------------------
// What a report says
// ---------------------------------------------------------------------------

/// The address that a family reports, as JSON.
pub open spec fn address_json(result: Result<Seq<char>, Seq<char>>) -> Seq<char> {
    match result {
        Ok(ip) => convert::json_string(ip),
        Err(_) => "null"@,
    }
}

/// The failure that a family reports, as JSON.
pub open spec fn failure_json(result: Result<Seq<char>, Seq<char>>) -> Seq<char> {
    match result {
        Ok(_) => "null"@,
        Err(cause) => convert::json_string(cause),
    }
}

/// The host that the relay talks to, as text.
pub open spec fn host_text(host: Option<Seq<char>>) -> Seq<char> {
    match host {
        Some(name) => name,
        None => seq![],
    }
}

/// The members of a report.
pub open spec fn report_members(
    v4: Result<Seq<char>, Seq<char>>,
    v6: Result<Seq<char>, Seq<char>>,
    host: Option<Seq<char>>,
) -> Seq<(Seq<char>, Seq<char>)> {
    seq![
        ("ipv4"@, address_json(v4)),
        ("ipv4_error"@, failure_json(v4)),
        ("ipv6"@, address_json(v6)),
        ("ipv6_error"@, failure_json(v6)),
        ("upstream_host"@, convert::json_string(host_text(host))),
    ]
}

/// The keys of a report need no escaping.
proof fn lemma_plain_keys()
    ensures
        convert::escaped("ipv4"@) == "ipv4"@,
        convert::escaped("ipv4_error"@) == "ipv4_error"@,
        convert::escaped("ipv6"@) == "ipv6"@,
        convert::escaped("ipv6_error"@) == "ipv6_error"@,
        convert::escaped("upstream_host"@) == "upstream_host"@,
{
    reveal_strlit("ipv4");
    reveal_strlit("ipv4_error");
    reveal_strlit("ipv6");
    reveal_strlit("ipv6_error");
    reveal_strlit("upstream_host");
    object::lemma_plain("ipv4"@);
    object::lemma_plain("ipv4_error"@);
    object::lemma_plain("ipv6"@);
    object::lemma_plain("ipv6_error"@);
    object::lemma_plain("upstream_host"@);
}

/// The two members of a family, each under its key.
proof fn lemma_family_members(
    name: Seq<char>,
    error_name: Seq<char>,
    result: Result<Seq<char>, Seq<char>>,
)
    requires
        convert::escaped(name) == name,
        convert::escaped(error_name) == error_name,
        error_name == name + "_error"@,
    ensures
        member_text(name, result) == object::member_text((name, address_json(result))) + seq![',']
            + object::member_text((error_name, failure_json(result))),
{
    let ip = address_json(result);
    let cause = failure_json(result);
    reveal_strlit("\"");
    reveal_strlit("\":");
    reveal_strlit(",\"");
    reveal_strlit("_error\":");
    reveal_strlit("_error");
    assert("\""@ =~= seq!['"']);
    assert("\":"@ =~= seq!['"'] + seq![':']);
    assert(",\""@ =~= seq![','] + seq!['"']);
    assert("_error\":"@ =~= "_error"@ + seq!['"'] + seq![':']);
    let q = seq!['"'];
    let c = seq![':'];
    assert(member_text(name, result) == q + name + (q + c) + ip + (seq![','] + q) + name + ("_error"@
        + q + c) + cause);
    assert(member_text(name, result) =~= (q + name + q + c + ip) + seq![','] + (q + error_name + q
        + c + cause));
}

/// The pieces of a report, in the groups they are written in or one after the other.
proof fn lemma_regroup(
    open: Seq<char>,
    a: Seq<char>,
    b: Seq<char>,
    c: Seq<char>,
    d: Seq<char>,
    comma: Seq<char>,
    key: Seq<char>,
    colon: Seq<char>,
    value: Seq<char>,
    close: Seq<char>,
)
    ensures
        open + (a + comma + b) + comma + (c + comma + d) + (comma + key + colon) + value + close
            == open + a + comma + b + comma + c + comma + d + comma + (key + colon + value) + close,
{
    let left = open + (a + comma + b);
    let front = open + a + comma + b;
    assert(left =~= front);
    assert(front + comma + (c + comma + d) =~= front + comma + c + comma + d);
    let mid = front + comma + c + comma + d;
    assert(mid + (comma + key + colon) + value =~= mid + comma + (key + colon + value));
}

/// A report is the object of its five members.
proof fn lemma_report_text(
    v4: Result<Seq<char>, Seq<char>>,
    v6: Result<Seq<char>, Seq<char>>,
    host: Option<Seq<char>>,
)
    ensures
        report_text(v4, v6, host) == object::object_text(report_members(v4, v6, host)),
{
    let ms = report_members(v4, v6, host);
    lemma_plain_keys();
    assert("ipv4_error"@ =~= "ipv4"@ + "_error"@) by {
        reveal_strlit("ipv4");
        reveal_strlit("_error");
        reveal_strlit("ipv4_error");
    }
    assert("ipv6_error"@ =~= "ipv6"@ + "_error"@) by {
        reveal_strlit("ipv6");
        reveal_strlit("_error");
        reveal_strlit("ipv6_error");
    }
    lemma_family_members("ipv4"@, "ipv4_error"@, v4);
    lemma_family_members("ipv6"@, "ipv6_error"@, v6);
    assert("{"@ =~= seq!['{']) by {
        reveal_strlit("{");
    }
    assert("}"@ =~= seq!['}']) by {
        reveal_strlit("}");
    }
    assert(","@ =~= seq![',']) by {
        reveal_strlit(",");
    }
    assert(",\"upstream_host\":"@ =~= seq![','] + (seq!['"'] + "upstream_host"@ + seq!['"'])
        + seq![':']) by {
        reveal_strlit(",\"upstream_host\":");
        reveal_strlit("upstream_host");
    }
    object::lemma_five_members(ms, seq!['{']);
    let a = object::member_text(ms[0]);
    let b = object::member_text(ms[1]);
    let c = object::member_text(ms[2]);
    let d = object::member_text(ms[3]);
    let key = convert::json_string("upstream_host"@);
    let value = ms[4].1;
    let comma = seq![','];
    let colon = seq![':'];
    assert(report_text(v4, v6, host) == seq!['{'] + (a + comma + b) + comma + (c + comma + d) + (
    comma + key + colon) + value + seq!['}']);
    lemma_regroup(seq!['{'], a, b, c, d, comma, key, colon, value, seq!['}']);
}

/// The value that a report has under a key.
pub open spec fn report_value(
    v4: Result<Seq<char>, Seq<char>>,
    v6: Result<Seq<char>, Seq<char>>,
    host: Option<Seq<char>>,
    key: Seq<u8>,
) -> Option<Seq<u8>> {
    if key == encode_utf8("ipv4"@) {
        Some(encode_utf8(address_json(v4)))
    } else if key == encode_utf8("ipv4_error"@) {
        Some(encode_utf8(failure_json(v4)))
    } else if key == encode_utf8("ipv6"@) {
        Some(encode_utf8(address_json(v6)))
    } else if key == encode_utf8("ipv6_error"@) {
        Some(encode_utf8(failure_json(v6)))
    } else if key == encode_utf8("upstream_host"@) {
        Some(object::string_bytes(host_text(host)))
    } else {
        None
    }
}

/// What a family reports is JSON.
proof fn lemma_family_values(result: Result<Seq<char>, Seq<char>>)
    ensures
        object::is_value(encode_utf8(address_json(result)), 0),
        object::is_value(encode_utf8(failure_json(result)), 0),
{
    object::lemma_null_is_value();
    match result {
        Ok(ip) => {
            object::lemma_string_is_value(ip);
        },
        Err(cause) => {
            object::lemma_string_is_value(cause);
        },
    }
}

/// Whatever a probe answered: the report has five members and no others, and each says
/// what the probes reported. Text from the network adds no member and ends no string.
pub proof fn law_reports_read_back(
    v4: Result<Seq<char>, Seq<char>>,
    v6: Result<Seq<char>, Seq<char>>,
    host: Option<Seq<char>>,
    key: Seq<u8>,
)
    ensures
        ({
            let body = encode_utf8(report_text(v4, v6, host));
            match report_value(v4, v6, host, key) {
                Some(value) => convert::member(body, key) matches Some(m) && body.subrange(
                    m.start,
                    m.end,
                ) == value && m.is_string == (value[0] == convert::QUOTE),
                None => convert::member(body, key) is None,
            }
        }),
{
    let ts = report_members(v4, v6, host);
    let ms = object::encoded(ts);
    lemma_report_text(v4, v6, host);
    object::lemma_encode_object(ts);
    lemma_family_values(v4);
    lemma_family_values(v6);
    object::lemma_string_is_value(host_text(host));
    assert(object::are_members(ms, 0));
    object::law_objects_read_back(ms, 0, key);
    lemma_plain_keys();
    let m1 = ms.drop_first();
    let m2 = m1.drop_first();
    let m3 = m2.drop_first();
    let m4 = m3.drop_first();
    assert(object::named(m4.drop_first(), key) is None);
    assert(m4[0] == ms[4]);
    assert(m3[0] == ms[3]);
    assert(m2[0] == ms[2]);
    assert(m1[0] == ms[1]);
    assert(object::named(m4, key) == if encode_utf8("upstream_host"@) == key {
        Some(ms[4].1)
    } else {
        None
    });
    assert(object::named(m3, key) == if encode_utf8("ipv6_error"@) == key {
        Some(ms[3].1)
    } else {
        object::named(m4, key)
    });
    assert(object::named(m2, key) == if encode_utf8("ipv6"@) == key {
        Some(ms[2].1)
    } else {
        object::named(m3, key)
    });
    assert(object::named(m1, key) == if encode_utf8("ipv4_error"@) == key {
        Some(ms[1].1)
    } else {
        object::named(m2, key)
    });
    assert(object::named(ms, key) == report_value(v4, v6, host, key));
}

/// An address is never reported under a family that it is not of.
pub proof fn law_families_are_not_mixed_up(shown_uri: Seq<char>, want_v4: bool, probed: Probed)
    ensures
        probe_report(shown_uri, want_v4, probed) matches Ok(ip) ==> (probed matches Probed::Address {
            ip: found,
            is_v4,
        } && found@ == ip && is_v4 == want_v4),
{
}

/// A report is a bad gateway exactly where both families failed; where at least one has an
/// address, both of them among those cases, it is a success.
pub proof fn law_one_address_is_a_success(
    v4: Result<Seq<char>, Seq<char>>,
    v6: Result<Seq<char>, Seq<char>>,
)
    ensures
        v4 is Ok || v6 is Ok ==> report_status(v4, v6) == 200,
        v4 is Err && v6 is Err ==> report_status(v4, v6) == 502,
        report_status(v4, v6) == report_status(v6, v4),
{
}

/// In a report an address is a string and its failure is null, or the failure is a string
/// and the address null; the host is a string, empty where there is none.
pub proof fn law_a_family_reports_one_of_two(t: Seq<char>)
    ensures
        address_json(Ok(t)) == convert::json_string(t),
        failure_json(Ok(t)) == "null"@,
        address_json(Err(t)) == "null"@,
        failure_json(Err(t)) == convert::json_string(t),
        host_text(Some(t)) == t,
        host_text(None).len() == 0,
{
}

/// What a probe reports: an address of the family that was asked for, or why there is
/// none, with the time that was allowed and the address that came instead.
pub proof fn law_probes_report_what_happened(
    shown_uri: Seq<char>,
    want_v4: bool,
    cause: String,
    ip: String,
    is_v4: bool,
)
    ensures
        probe_report(shown_uri, want_v4, Probed::Failed(cause)) == Err::<Seq<char>, Seq<char>>(
            cause@,
        ),
        is_v4 == want_v4 ==> probe_report(shown_uri, want_v4, Probed::Address { ip, is_v4 }) == Ok::<
            Seq<char>,
            Seq<char>,
        >(ip@),
        is_v4 && !want_v4 ==> probe_report(shown_uri, want_v4, Probed::Address { ip, is_v4 })
            == Err::<Seq<char>, Seq<char>>(
            shown_uri + " answered "@ + ip@ + ", which is not "@ + "IPv6"@,
        ),
        !is_v4 && want_v4 ==> probe_report(shown_uri, want_v4, Probed::Address { ip, is_v4 })
            == Err::<Seq<char>, Seq<char>>(
            shown_uri + " answered "@ + ip@ + ", which is not "@ + "IPv4"@,
        ),
        probe_report(shown_uri, true, Probed::TimedOut) == Err::<Seq<char>, Seq<char>>(
            "IPv4"@ + " probe timed out after "@ + text::decimal(4) + "s"@,
        ),
        probe_report(shown_uri, false, Probed::TimedOut) == Err::<Seq<char>, Seq<char>>(
            "IPv6"@ + " probe timed out after "@ + text::decimal(4) + "s"@,
        ),
{
}

/// An answer with a status from 200 to 299 offers its text, the white space around it
/// apart; with any other status, or where it is no text, it offers none and says why.
pub proof fn law_probe_answers_are_their_text(
    status: u16,
    before: Seq<char>,
    core: Seq<char>,
    behind: Seq<char>,
    body: Seq<u8>,
)
    requires
        forall|i: int| 0 <= i < before.len() ==> text::is_white_space(#[trigger] before[i]),
        forall|i: int| 0 <= i < behind.len() ==> text::is_white_space(#[trigger] behind[i]),
        core.len() > 0 ==> !text::is_white_space(core.first()) && !text::is_white_space(
            core.last(),
        ),
    ensures
        200 <= status < 300 ==> answer_text(status, encode_utf8(before + core + behind)) == Ok::<
            Seq<char>,
            Seq<char>,
        >(core),
        200 <= status < 300 && !valid_utf8(body) ==> answer_text(status, body) == Err::<
            Seq<char>,
            Seq<char>,
        >(text::utf8_error_text(body)),
        !(200 <= status < 300) ==> answer_text(status, body) == Err::<Seq<char>, Seq<char>>(
            "probe answered "@ + text::decimal(status as nat) + " "@ + header::reason_phrase(
                status,
            ),
        ),
{
    let t = before + core + behind;
    text::law_trimming_keeps_the_core(before, core, behind);
    encode_utf8_valid_utf8(t);
    encode_utf8_decode_utf8(t);
    reveal_strlit(" ");
    assert(" "@ =~= seq![' ']);
    assert("probe answered "@ + (text::decimal(status as nat) + seq![' '] + header::reason_phrase(
        status,
    )) =~= "probe answered "@ + text::decimal(status as nat) + " "@ + header::reason_phrase(
        status,
    ));
}

/// What a probe came to is taken as it is.
pub proof fn law_reports_take_outcomes_as_they_are(t: String)
    ensures
        outcome(Ok::<String, String>(t)) == Ok::<Seq<char>, Seq<char>>(t@),
        outcome(Err::<String, String>(t)) == Err::<Seq<char>, Seq<char>>(t@),
{
}

/// The two members of a family: the address under its name, the failure under its name
/// with a suffix.
pub proof fn law_a_family_has_two_members(name: Seq<char>, result: Result<Seq<char>, Seq<char>>)
    ensures
        member_text(name, result) == "\""@ + name + "\":"@ + address_json(result) + ",\""@ + name
            + "_error\":"@ + failure_json(result),
{
}

/// A probe is given four seconds, and read as far as any address goes.
pub proof fn law_probes_are_bounded()
    ensures
        PROBE_TIMEOUT_SECS == 4,
        MAX_PROBE_BODY == 128,
        V4_PROBE@ == "https://api.ipify.org"@,
        V6_PROBE@ == "https://api6.ipify.org"@,
        PROBE_AGENT@ == "llm-relay/egress"@,
{
}

} // verus!
