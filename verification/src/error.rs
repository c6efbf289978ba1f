//! The OpenAI error envelope every terminal failure answers with: `error.message`,
//! `error.type`, `error.param`, `error.code`. The `type` always follows the status map
//! that strict clients switch on.

use vstd::prelude::*;
use vstd::utf8::*;

use crate::convert;
use crate::document;
use crate::object;
use crate::text;

verus! {

/// How much of a foreign error page goes into an envelope, in characters.
pub const MESSAGE_LIMIT: usize = 500;

/// The OpenAI error `type` of a status code.
pub open spec fn type_of(status: u16) -> Seq<char> {
    if status == 400 || status == 413 || status == 422 {
        "invalid_request_error"@
    } else if status == 401 {
        "authentication_error"@
    } else if status == 403 {
        "permission_error"@
    } else if status == 404 {
        "not_found_error"@
    } else if status == 429 {
        "rate_limit_error"@
    } else if 500 <= status <= 599 {
        "server_error"@
    } else {
        "api_error"@
    }
}

/// The OpenAI error `type` a strict client expects for a given status code.
pub fn error_type(status: u16) -> (res: &'static str)
    ensures
        res@ == type_of(status),
{
    match status {
        400 | 413 | 422 => "invalid_request_error",
        401 => "authentication_error",
        403 => "permission_error",
        404 => "not_found_error",
        429 => "rate_limit_error",
        500..=599 => "server_error",
        _ => "api_error",
    }
}

/// A text cut to `limit` characters, with an ellipsis where something was cut off.
pub open spec fn cut(s: Seq<char>, limit: nat) -> Seq<char> {
    if s.len() <= limit {
        s
    } else {
        s.take(limit as int).push('\u{2026}')
    }
}

/// Truncate to at most `limit` characters, marking the cut so a long upstream error
/// page cannot balloon the relayed body.
pub fn truncate(text: &str, limit: usize) -> (res: String)
    ensures
        res@ == cut(text@, limit as nat),
        text@.len() <= limit ==> res@ == text@,
        text@.len() > limit ==> res@ == text@.take(limit as int) + seq!['\u{2026}'],
{
    let count = text.unicode_len();
    if count <= limit {
        return text.to_owned();
    }
    let mut out = text.substring_char(0, limit).to_owned();
    out.push('\u{2026}');
    assert(out@ == cut(text@, limit as nat));
    out
}

/// The text of an error envelope.
pub open spec fn envelope(status: u16, message: Seq<char>) -> Seq<char> {
    "{\"error\":{\"message\":"@ + convert::json_string(message) + ",\"type\":\""@ + type_of(status)
        + "\",\"param\":null,\"code\":null}}"@
}

/// One OpenAI error envelope body, type derived from the status.
pub fn openai_error_body(status: u16, message: &str) -> (body: Vec<u8>)
    ensures
        body@ == encode_utf8(envelope(status, message@)),
{
    let mut out = String::new();
    out.push_str("{\"error\":{\"message\":");
    convert::write_json_string(&mut out, message);
    // `error_type` returns one of a fixed set of bare identifiers, so it needs no
    // escaping; the caller's message is the only untrusted half.
    out.push_str(",\"type\":\"");
    out.push_str(error_type(status));
    out.push_str("\",\"param\":null,\"code\":null}}");
    assert(out@ == envelope(status, message@));
    out.into_bytes()
}

/// Whether a body already speaks the OpenAI error shape: `error.message` is a string.
pub open spec fn speaks_openai(payload: Seq<u8>) -> bool {
    convert::nested_string(payload, encode_utf8("error"@), encode_utf8("message"@))
}

/// An upstream error body in the OpenAI error shape.
pub open spec fn normalized(payload: Seq<u8>, status: u16) -> Seq<u8> {
    if speaks_openai(payload) {
        payload
    } else {
        encode_utf8(envelope(status, cut(text::shown_text(payload), MESSAGE_LIMIT as nat)))
    }
}

/// Upstream bodies that already speak the OpenAI error shape pass through untouched;
/// anything else is wrapped with the status-derived type and the raw body text as the
/// message.
pub fn normalize_error_body(payload: &[u8], status: u16) -> (body: Vec<u8>)
    ensures
        body@ == normalized(payload@, status),
        convert::nested_string(payload@, encode_utf8("error"@), encode_utf8("message"@)) ==> body@
            == payload@,
{
    if convert::has_nested_string(payload, "error".as_bytes(), "message".as_bytes()) {
        return vstd::slice::slice_to_vec(payload);
    }
    let message = text::from_utf8_lossy(payload);
    wrap_error_text(message.as_str(), status)
}

/// Wrap the text of a foreign error body: cut to size, in an envelope whose type follows
/// the status.
pub fn wrap_error_text(message: &str, status: u16) -> (body: Vec<u8>)
    ensures
        body@ == encode_utf8(envelope(status, cut(message@, MESSAGE_LIMIT as nat))),
{
    let short = truncate(message, MESSAGE_LIMIT);
    openai_error_body(status, short.as_str())
}

// ---------------------------------------------------------------------------
// Laws
// ---------------------------------------------------------------------------

/// The members of the `error` object in an envelope.
pub open spec fn error_members(status: u16, message: Seq<char>) -> Seq<(Seq<char>, Seq<char>)> {
    seq![
        ("message"@, convert::json_string(message)),
        ("type"@, convert::json_string(type_of(status))),
        ("param"@, "null"@),
        ("code"@, "null"@),
    ]
}

/// The error types are bare identifiers.
proof fn lemma_type_is_plain(status: u16)
    ensures
        object::is_plain(type_of(status)),
{
    reveal_strlit("invalid_request_error");
    reveal_strlit("authentication_error");
    reveal_strlit("permission_error");
    reveal_strlit("not_found_error");
    reveal_strlit("rate_limit_error");
    reveal_strlit("server_error");
    reveal_strlit("api_error");
}

/// The keys of an envelope need no escaping.
proof fn lemma_keys_are_plain()
    ensures
        object::is_plain("error"@),
        object::is_plain("message"@),
        object::is_plain("type"@),
        object::is_plain("param"@),
        object::is_plain("code"@),
{
    reveal_strlit("error");
    reveal_strlit("message");
    reveal_strlit("type");
    reveal_strlit("param");
    reveal_strlit("code");
}

/// An envelope is an object with the one member `error`, which is an object with the four
/// members of an error.
proof fn lemma_envelope_text(status: u16, message: Seq<char>)
    ensures
        envelope(status, message) == object::object_text(
            seq![("error"@, object::object_text(error_members(status, message)))],
        ),
{
    let ms = error_members(status, message);
    let m = convert::json_string(message);
    let t = type_of(status);
    lemma_keys_are_plain();
    lemma_type_is_plain(status);
    object::lemma_plain("error"@);
    object::lemma_plain("message"@);
    object::lemma_plain("type"@);
    object::lemma_plain("param"@);
    object::lemma_plain("code"@);
    object::lemma_plain(t);
    object::lemma_first_member(ms);
    object::lemma_first_member(ms.drop_first());
    assert(ms.drop_first().drop_first() =~= seq![ms[2], ms[3]]);
    object::lemma_two_members(ms[2], ms[3]);
    reveal_strlit("{\"error\":{\"message\":");
    reveal_strlit(",\"type\":\"");
    reveal_strlit("\",\"param\":null,\"code\":null}}");
    reveal_strlit("error");
    reveal_strlit("message");
    reveal_strlit("type");
    reveal_strlit("param");
    reveal_strlit("code");
    reveal_strlit("null");
    let front = seq!['{'] + (seq!['"'] + "error"@ + seq!['"']) + seq![':'] + seq!['{'] + (seq!['"']
        + "message"@ + seq!['"']) + seq![':'];
    assert("{\"error\":{\"message\":"@ =~= front);
    let middle = seq![','] + (seq!['"'] + "type"@ + seq!['"']) + seq![':'] + seq!['"'];
    assert(",\"type\":\""@ =~= middle);
    let back = seq!['"'] + seq![','] + (seq!['"'] + "param"@ + seq!['"']) + seq![':'] + "null"@
        + seq![','] + (seq!['"'] + "code"@ + seq!['"']) + seq![':'] + "null"@ + seq!['}']
        + seq!['}'];
    assert("\",\"param\":null,\"code\":null}}"@ =~= back);
    let inner = object::object_text(ms);
    let whole = object::object_text(seq![("error"@, inner)]);
    assert(whole == seq!['{'] + object::member_text(("error"@, inner)) + seq!['}']);
    assert(whole =~= front + m + middle + t + back);
}

/// The `error` object of an envelope, as bytes.
pub open spec fn error_object(status: u16, message: Seq<char>) -> Seq<u8> {
    object::object_bytes(object::encoded(error_members(status, message)))
}

/// The members of the `error` object are values.
proof fn lemma_error_members(status: u16, message: Seq<char>)
    ensures
        object::are_members(object::encoded(error_members(status, message)), 0),
        object::is_value(error_object(status, message), 1),
        error_object(status, message)[0] != convert::QUOTE,
{
    let ms = object::encoded(error_members(status, message));
    object::lemma_string_is_value(message);
    object::lemma_string_is_value(type_of(status));
    object::lemma_null_is_value();
    assert(object::are_members(ms, 0));
    object::lemma_object_is_value(ms, 0);
}

/// An envelope as bytes: an object around the `error` object.
proof fn lemma_envelope_bytes(status: u16, message: Seq<char>)
    ensures
        encode_utf8(envelope(status, message)) == object::object_bytes(
            seq![("error"@, error_object(status, message))],
        ),
{
    let ms = error_members(status, message);
    let outer = seq![("error"@, object::object_text(ms))];
    lemma_envelope_text(status, message);
    object::lemma_encode_object(ms);
    object::lemma_encode_object(outer);
    assert(object::encoded(outer) =~= seq![("error"@, error_object(status, message))]);
}

/// Whatever the message, an envelope has the one member `error`, which holds the `error`
/// object.
pub proof fn law_envelope_holds_only_the_error(status: u16, message: Seq<char>, key: Seq<u8>)
    ensures
        ({
            let body = encode_utf8(envelope(status, message));
            match convert::member(body, key) {
                Some(m) => key == encode_utf8("error"@) && body.subrange(m.start, m.end)
                    == error_object(status, message),
                None => key != encode_utf8("error"@),
            }
        }),
{
    let outer = seq![("error"@, error_object(status, message))];
    lemma_envelope_bytes(status, message);
    lemma_error_members(status, message);
    assert(object::are_members(outer, 1));
    object::law_objects_read_back(outer, 1, key);
    lemma_keys_are_plain();
    object::lemma_plain("error"@);
    assert(object::named(outer.drop_first(), key) is None);
}

/// Whatever the message, the `error` object has the four members of an error and no
/// others: the message as the string that was put in, and the type that goes with the
/// status. Text from outside adds no member and ends no string.
pub proof fn law_error_object_holds_the_message(status: u16, message: Seq<char>, key: Seq<u8>)
    ensures
        ({
            let inner = error_object(status, message);
            match convert::member(inner, key) {
                Some(m) => {
                    let value = inner.subrange(m.start, m.end);
                    ||| key == encode_utf8("message"@) && m.is_string && value
                        == object::string_bytes(message)
                    ||| key == encode_utf8("type"@) && m.is_string && value
                        == object::string_bytes(type_of(status))
                    ||| key == encode_utf8("param"@) && !m.is_string && value == encode_utf8(
                        "null"@,
                    )
                    ||| key == encode_utf8("code"@) && !m.is_string && value == encode_utf8(
                        "null"@,
                    )
                },
                None => key != encode_utf8("message"@) && key != encode_utf8("type"@) && key
                    != encode_utf8("param"@) && key != encode_utf8("code"@),
            }
        }),
{
    let ms = object::encoded(error_members(status, message));
    lemma_error_members(status, message);
    object::law_objects_read_back(ms, 0, key);
    object::lemma_string_is_value(message);
    object::lemma_string_is_value(type_of(status));
    object::lemma_null_is_value();
    lemma_keys_are_plain();
    object::lemma_plain("message"@);
    object::lemma_plain("type"@);
    object::lemma_plain("param"@);
    object::lemma_plain("code"@);
    reveal_with_fuel(object::named, 5);
    let ms1 = ms.drop_first();
    let ms2 = ms1.drop_first();
    let ms3 = ms2.drop_first();
    assert(ms1[0] == ms[1] && ms2[0] == ms[2] && ms3[0] == ms[3]);
    assert(object::named(ms3.drop_first(), key) is None);
}

/// An envelope speaks the OpenAI error shape.
pub proof fn law_envelopes_speak_openai(status: u16, message: Seq<char>)
    ensures
        speaks_openai(encode_utf8(envelope(status, message))),
{
    law_envelope_holds_only_the_error(status, message, encode_utf8("error"@));
    law_error_object_holds_the_message(status, message, encode_utf8("message"@));
    reveal_strlit("message");
    reveal_strlit("type");
    reveal_strlit("param");
    reveal_strlit("code");
    text::lemma_encode_injective("message"@, "type"@);
    text::lemma_encode_injective("message"@, "param"@);
    text::lemma_encode_injective("message"@, "code"@);
}

/// Whatever upstream sent, what the client gets speaks the OpenAI error shape, and
/// normalizing it again, at any status, leaves it alone.
pub proof fn law_normalized_speaks_openai(payload: Seq<u8>, status: u16, again: u16)
    ensures
        speaks_openai(normalized(payload, status)),
        normalized(normalized(payload, status), again) == normalized(payload, status),
{
    law_envelopes_speak_openai(status, cut(text::shown_text(payload), MESSAGE_LIMIT as nat));
}

/// A message is never longer than the limit and the mark of the cut.
pub proof fn law_cut_is_short(s: Seq<char>, limit: nat)
    ensures
        cut(s, limit).len() <= limit + 1,
        s.len() <= limit ==> cut(s, limit) == s,
{
}

/// A text within the limit is left alone; a longer one keeps as many characters as the
/// limit says, from the front, and the mark of the cut.
pub proof fn law_cut_keeps_the_front(front: Seq<char>, behind: Seq<char>)
    ensures
        cut(front, front.len()) == front,
        behind.len() > 0 ==> cut(front + behind, front.len()) == front + seq!['\u{2026}'],
{
    assert((front + behind).take(front.len() as int) =~= front);
}

/// The type of an error follows the status: what a strict client switches on.
pub proof fn law_types_follow_the_status(status: u16)
    ensures
        (status == 400 || status == 413 || status == 422) ==> type_of(status)
            == "invalid_request_error"@,
        status == 401 ==> type_of(status) == "authentication_error"@,
        status == 403 ==> type_of(status) == "permission_error"@,
        status == 404 ==> type_of(status) == "not_found_error"@,
        status == 429 ==> type_of(status) == "rate_limit_error"@,
        500 <= status < 600 ==> type_of(status) == "server_error"@,
        status != 400 && status != 413 && status != 422 && status != 401 && status != 403 && status
            != 404 && status != 429 && !(500 <= status < 600) ==> type_of(status) == "api_error"@,
{
}

/// A body that already speaks the OpenAI error shape passes untouched: an object with a
/// member `error`, whose value is an object with a string `message`, in whatever order
/// the members stand, with whatever members and white space beside them.
pub proof fn law_openai_errors_pass_untouched(
    lead: Seq<u8>,
    fs: Seq<document::Field>,
    h: nat,
    gap: Seq<u8>,
    rest: Seq<u8>,
    gs: Seq<document::Field>,
    k: nat,
    space: Seq<u8>,
    status: u16,
)
    requires
        document::is_space(lead),
        document::are_fields(fs, h),
        document::is_space(gap),
        document::field_named(fs, encode_utf8("error"@)) == Some(
            document::document_bytes(gs, space),
        ),
        document::are_fields(gs, k),
        document::is_space(space),
        document::field_named(gs, encode_utf8("message"@)) is Some,
        document::field_named(gs, encode_utf8("message"@))->0[0] == 0x22,
    ensures
        ({
            let payload = lead + document::document_bytes(fs, gap) + rest;
            normalized(payload, status) == payload && speaks_openai(payload)
        }),
{
    document::law_nested_strings_are_found(
        lead,
        fs,
        h,
        gap,
        rest,
        encode_utf8("error"@),
        encode_utf8("message"@),
        gs,
        k,
        space,
    );
}

/// Whether a body is left alone rests on the one string inside the one member, and on
/// nothing else; any other body is wrapped, with the type of its status and the first
/// five hundred characters of its text.
pub proof fn law_other_errors_are_wrapped(payload: Seq<u8>, status: u16)
    ensures
        convert::nested_string(payload, encode_utf8("error"@), encode_utf8("message"@))
            ==> normalized(payload, status) == payload,
        !convert::nested_string(payload, encode_utf8("error"@), encode_utf8("message"@)) ==> {
            let shown = text::shown_text(payload);
            let message = if shown.len() <= 500 {
                shown
            } else {
                shown.take(500) + seq!['\u{2026}']
            };
            normalized(payload, status) == encode_utf8(
                "{\"error\":{\"message\":"@ + convert::json_string(message) + ",\"type\":\""@
                    + type_of(status) + "\",\"param\":null,\"code\":null}}"@,
            )
        },
        speaks_openai(payload) == convert::nested_string(
            payload,
            encode_utf8("error"@),
            encode_utf8("message"@),
        ),
{
    let shown = text::shown_text(payload);
    if shown.len() > 500 {
        assert(shown.take(500).push('\u{2026}') =~= shown.take(500) + seq!['\u{2026}']);
    }
}

/// Bytes that are UTF-8 are shown as the text that they encode.
pub proof fn law_text_is_shown_as_it_is(t: Seq<char>)
    ensures
        text::shown_text(encode_utf8(t)) == t,
{
    encode_utf8_valid_utf8(t);
    encode_utf8_decode_utf8(t);
}

/// A foreign error page that is not JSON is wrapped as it is, when it is short: the
/// client finds the page's own text as the message.
pub proof fn law_plain_pages_become_the_message(t: Seq<char>, status: u16)
    requires
        t.len() <= 500,
        encode_utf8(t).len() > 0 ==> encode_utf8(t)[0] != 0x7b && !convert::is_ws(
            encode_utf8(t)[0],
        ),
    ensures
        normalized(encode_utf8(t), status) == encode_utf8(envelope(status, t)),
{
    let e = encode_utf8(t);
    let none = Seq::<u8>::empty();
    document::law_only_objects_have_members(none, e, encode_utf8("error"@));
    assert(none + e =~= e);
    law_text_is_shown_as_it_is(t);
}

} // verus!
