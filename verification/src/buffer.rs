//! Byte buffers: what the library relies on of `bytes`, and the substring search of
//! `memchr`.

use bytes::{Bytes, BytesMut};
use vstd::prelude::*;
use vstd::utf8::*;

use crate::text;

verus! {

/// The shared, immutable byte string of the `bytes` crate.
#[verifier::external_type_specification]
#[verifier::external_body]
pub struct ExBytes(Bytes);

/// The growable byte buffer of the `bytes` crate.
#[verifier::external_type_specification]
#[verifier::external_body]
pub struct ExBytesMut(BytesMut);

/// The bytes that a `Bytes` holds.
pub uninterp spec fn content(b: Bytes) -> Seq<u8>;

/// The bytes that a `BytesMut` holds.
pub uninterp spec fn buffered(b: BytesMut) -> Seq<u8>;

/// `Bytes::new` makes an empty byte string.
pub assume_specification[ Bytes::new ]() -> (res: Bytes)
    ensures
        content(res) == Seq::<u8>::empty(),
;

/// `Bytes::from(Vec<u8>)` keeps the bytes of the vector.
#[verifier::external_body]
pub(crate) fn bytes_from_vec(bytes: Vec<u8>) -> (res: Bytes)
    ensures
        content(res) == bytes@,
{
    Bytes::from(bytes)
}

/// `Bytes::from(String)` keeps the UTF-8 encoding of the text.
#[verifier::external_body]
pub(crate) fn bytes_from_string(text: String) -> (res: Bytes)
    ensures
        content(res) == encode_utf8(text@),
{
    Bytes::from(text)
}

/// `Bytes::from_static` borrows the bytes of a static slice.
pub assume_specification[ Bytes::from_static ](bytes: &'static [u8]) -> (res: Bytes)
    ensures
        content(res) == bytes@,
;

/// Cloning a `Bytes` gives another handle on the same bytes.
pub assume_specification[ <Bytes as Clone>::clone ](b: &Bytes) -> (res: Bytes)
    ensures
        content(res) == content(*b),
;

/// Dereferencing a `Bytes` gives the bytes it holds.
#[verifier::external_body]
pub(crate) fn bytes_slice(b: &Bytes) -> (res: &[u8])
    ensures
        res@ == content(*b),
{
    b
}

/// `BytesMut::new` makes an empty buffer.
pub assume_specification[ BytesMut::new ]() -> (res: BytesMut)
    ensures
        buffered(res) == Seq::<u8>::empty(),
;

/// `BytesMut::len` counts the bytes in the buffer.
pub assume_specification[ BytesMut::len ](b: &BytesMut) -> (n: usize)
    ensures
        n == buffered(*b).len(),
;

/// Dereferencing a `BytesMut` gives the bytes it holds.
#[verifier::external_body]
pub(crate) fn buffer_slice(b: &BytesMut) -> (res: &[u8])
    ensures
        res@ == buffered(*b),
{
    b
}

/// `BytesMut::extend_from_slice` appends the bytes. It panics where the room it asks for
/// exceeds `isize::MAX`, and it may ask for almost four times what the buffer is to hold:
/// the bound leaves that out.
pub assume_specification[ BytesMut::extend_from_slice ](b: &mut BytesMut, extend: &[u8])
    requires
        buffered(*old(b)).len() + extend@.len() <= isize::MAX / 4,
    ensures
        buffered(*final(b)) == buffered(*old(b)) + extend@,
;

/// `BytesMut::split_to` cuts the first `at` bytes off and hands them out. It panics
/// where there are not as many.
pub assume_specification[ BytesMut::split_to ](b: &mut BytesMut, at: usize) -> (res: BytesMut)
    requires
        at <= buffered(*old(b)).len(),
    ensures
        buffered(res) == buffered(*old(b)).take(at as int),
        buffered(*final(b)) == buffered(*old(b)).skip(at as int),
;

/// `BytesMut::freeze` keeps the bytes.
pub assume_specification[ BytesMut::freeze ](b: BytesMut) -> (res: Bytes)
    ensures
        content(res) == buffered(b),
;

/// `BytesMut::clear` empties the buffer.
pub assume_specification[ BytesMut::clear ](b: &mut BytesMut)
    ensures
        buffered(*final(b)) == Seq::<u8>::empty(),
;

/// `memchr::memmem::find` gives the position of the first occurrence of `needle`, and
/// `None` exactly where there is none.
pub assume_specification[ memchr::memmem::find ](haystack: &[u8], needle: &[u8]) -> (res: Option<
    usize,
>)
    ensures
        res matches Some(i) ==> text::occurs_at(haystack@, needle@, i as int),
        res matches Some(i) ==> forall|k: int|
            0 <= k < i ==> !text::occurs_at(haystack@, needle@, k),
        res is None ==> forall|k: int| !text::occurs_at(haystack@, needle@, k),
;

} // verus!
