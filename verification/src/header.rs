//! HTTP headers, status codes and URIs: what the library relies on of `hyper`.

use hyper::header::{HeaderMap, HeaderName, HeaderValue};
use hyper::{StatusCode, Uri};
use vstd::prelude::*;
use vstd::utf8::*;

use crate::text;

verus! {

/// The header value of `hyper`: a byte string, with a mark on those that hold a secret.
#[verifier::external_type_specification]
#[verifier::external_body]
pub struct ExHeaderValue(HeaderValue);

/// The header collection of `hyper`: one or more values under each name.
#[verifier::external_type_specification]
#[verifier::external_body]
#[verifier::reject_recursive_types(T)]
pub struct ExHeaderMap<T>(HeaderMap<T>);

/// The bytes of a header value.
pub uninterp spec fn value_bytes(v: HeaderValue) -> Seq<u8>;

/// Whether a header value is marked as holding a secret.
pub uninterp spec fn value_sensitive(v: HeaderValue) -> bool;

/// What a header collection holds: under each name its values in order, each as its
/// bytes and its mark.
pub uninterp spec fn entries(m: HeaderMap<HeaderValue>) -> Map<Seq<char>, Seq<(Seq<u8>, bool)>>;

/// The collection that holds nothing.
pub open spec fn no_entries() -> Map<Seq<char>, Seq<(Seq<u8>, bool)>> {
    Map::empty()
}

/// A header value as its bytes and its mark.
pub open spec fn value_view(v: HeaderValue) -> (Seq<u8>, bool) {
    (value_bytes(v), value_sensitive(v))
}

/// The bytes that may stand in a header value that is text: visible ASCII, space, tab.
pub open spec fn is_visible(b: u8) -> bool {
    0x20 <= b < 0x7f || b == 0x09
}

/// Whether a byte string is text in the sense of a header value.
pub open spec fn all_visible(s: Seq<u8>) -> bool {
    forall|i: int| 0 <= i < s.len() ==> is_visible(#[trigger] s[i])
}

/// The bytes that may stand in any header value: no control byte but the tab.
pub open spec fn is_value_byte(b: u8) -> bool {
    0x20 <= b && b != 0x7f || b == 0x09
}

/// Whether a byte string can be a header value.
pub open spec fn is_value(s: Seq<u8>) -> bool {
    forall|i: int| 0 <= i < s.len() ==> is_value_byte(#[trigger] s[i])
}

/// `HeaderValue::from_str`: a value that holds the bytes of the text, without the mark,
/// exactly where all of them may stand in a header value.
#[verifier::external_body]
pub(crate) fn value_from_str(text: &str) -> (res: Option<HeaderValue>)
    ensures
        res is Some <==> is_value(encode_utf8(text@)),
        res matches Some(v) ==> value_view(v) == (encode_utf8(text@), false),
{
    HeaderValue::from_str(text).ok()
}

/// `HeaderValue::from_static`: a value that holds the bytes of the text, without the
/// mark. It panics on text that is not visible ASCII.
#[verifier::external_body]
pub(crate) fn value_from_static(text: &'static str) -> (res: HeaderValue)
    requires
        all_visible(encode_utf8(text@)),
    ensures
        value_view(res) == (encode_utf8(text@), false),
{
    HeaderValue::from_static(text)
}

/// `HeaderValue::to_str`: the bytes as text, exactly where all of them are visible ASCII.
#[verifier::external_body]
pub(crate) fn value_to_str(v: &HeaderValue) -> (res: Option<&str>)
    ensures
        res is Some <==> all_visible(value_bytes(*v)),
        res matches Some(text) ==> encode_utf8(text@) == value_bytes(*v),
{
    v.to_str().ok()
}

/// `HeaderValue::set_sensitive` sets the mark and leaves the bytes alone.
pub assume_specification[ HeaderValue::set_sensitive ](v: &mut HeaderValue, val: bool)
    ensures
        value_bytes(*final(v)) == value_bytes(*old(v)),
        value_sensitive(*final(v)) == val,
;

/// Cloning a header value keeps its bytes and its mark.
pub assume_specification[ <HeaderValue as Clone>::clone ](v: &HeaderValue) -> (res: HeaderValue)
    ensures
        value_view(res) == value_view(*v),
;

/// `HeaderMap::new` makes a collection that holds nothing.
#[verifier::external_body]
pub(crate) fn new_headers() -> (res: HeaderMap<HeaderValue>)
    ensures
        entries(res) == no_entries(),
{
    HeaderMap::new()
}

/// The names that a header can be given here: lower-case letters and hyphens.
pub open spec fn is_name(name: Seq<char>) -> bool {
    0 < name.len() < 64 && forall|i: int|
        0 <= i < name.len() ==> 'a' <= #[trigger] name[i] <= 'z' || name[i] == '-'
}

/// `HeaderMap::insert`: the name now holds this one value in place of all it held; the
/// other names keep theirs. It panics only in a collection of many thousand names.
#[verifier::external_body]
pub(crate) fn insert_header(
    headers: &mut HeaderMap<HeaderValue>,
    name: &'static str,
    value: HeaderValue,
)
    requires
        is_name(name@),
        entries(*old(headers)).dom().finite(),
        entries(*old(headers)).len() < 64,
    ensures
        entries(*final(headers)) == entries(*old(headers)).insert(name@, seq![value_view(value)]),
{
    headers.insert(HeaderName::from_static(name), value);
}

/// `HeaderMap::get`: the first value under the name, where it holds any.
#[verifier::external_body]
pub(crate) fn first_header<'a>(
    headers: &'a HeaderMap<HeaderValue>,
    name: &'static str,
) -> (res: Option<&'a HeaderValue>)
    requires
        is_name(name@),
    ensures
        res is Some <==> entries(*headers).contains_key(name@),
        res matches Some(v) ==> entries(*headers)[name@].len() > 0,
        res matches Some(v) ==> value_view(*v) == entries(*headers)[name@][0],
{
    headers.get(HeaderName::from_static(name))
}

/// The values that stand under `name` in a list of headers, in order.
pub open spec fn values_under(list: Seq<(String, HeaderValue)>, name: Seq<char>) -> Seq<
    (Seq<u8>, bool),
>
    decreases list.len(),
{
    if list.len() == 0 {
        seq![]
    } else {
        let rest = values_under(list.drop_last(), name);
        if list.last().0@ == name {
            rest.push(value_view(list.last().1))
        } else {
            rest
        }
    }
}

/// The values that a collection holds under `name`; none where it holds none.
pub open spec fn held(m: Map<Seq<char>, Seq<(Seq<u8>, bool)>>, name: Seq<char>) -> Seq<
    (Seq<u8>, bool),
> {
    if m.contains_key(name) {
        m[name]
    } else {
        seq![]
    }
}

/// `HeaderMap::iter`: every name once per value that it holds, its values in order. In
/// which order the names come is not stated.
#[verifier::external_body]
pub(crate) fn list_headers(headers: &HeaderMap<HeaderValue>) -> (res: Vec<(String, HeaderValue)>)
    ensures
        forall|name: Seq<char>| #[trigger]
            values_under(res@, name) == held(entries(*headers), name),
{
    headers.iter().map(|(k, v)| (k.as_str().to_string(), v.clone())).collect()
}

/// `StatusCode::from_u16` takes the numbers of three digits.
#[verifier::external_body]
pub(crate) fn is_status(status: u16) -> (res: bool)
    ensures
        res == (100 <= status <= 999),
{
    StatusCode::from_u16(status).is_ok()
}

/// The reason phrase that `StatusCode` displays for a number.
pub uninterp spec fn reason_phrase(status: u16) -> Seq<char>;

/// How a status code is displayed: its number, a space and its reason phrase.
pub open spec fn status_text(status: u16) -> Seq<char> {
    text::decimal(status as nat) + seq![' '] + reason_phrase(status)
}

/// The `Display` of `StatusCode`: the number, a space and the reason phrase. The phrase
/// is a function of the number and is not stated.
#[verifier::external_body]
pub(crate) fn show_status(status: u16) -> (res: String)
    requires
        100 <= status <= 999,
    ensures
        res@ == text::decimal(status as nat) + seq![' '] + reason_phrase(status),
{
    StatusCode::from_u16(status).unwrap().to_string()
}

/// The text of the error with which `Uri::from_str` refuses a text; none where it reads
/// one.
pub uninterp spec fn uri_error(text: Seq<char>) -> Option<Seq<char>>;

/// How the `Display` of `Uri` shows the URI read from a text.
pub uninterp spec fn uri_shown(text: Seq<char>) -> Seq<char>;

/// The host that `Uri::host` finds in the URI read from a text.
pub uninterp spec fn uri_host(text: Seq<char>) -> Option<Seq<char>>;

/// `Uri::from_str`, and the `Display` and `Uri::host` of what it gives. Each is a function
/// of the text; which texts are URIs, how they are shown, and what their hosts are, is not
/// stated.
#[verifier::external_body]
pub(crate) fn read_uri(text: &str) -> (res: Result<(String, Option<String>), String>)
    ensures
        match res {
            Ok((shown, host)) => uri_error(text@) is None && uri_shown(text@) == shown@ && uri_host(
                text@,
            ) == (match host {
                Some(h) => Some(h@),
                None => None,
            }),
            Err(cause) => uri_error(text@) == Some(cause@),
        },
{
    match text.parse::<Uri>() {
        Ok(uri) => Ok((uri.to_string(), uri.host().map(|h| h.to_string()))),
        Err(e) => Err(e.to_string()),
    }
}

} // verus!
