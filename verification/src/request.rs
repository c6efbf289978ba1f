//! The requests that the relay sends.

use bytes::Bytes;
use hyper::header::{HeaderMap, HeaderValue};
use vstd::prelude::*;

use crate::buffer;
use crate::header;

verus! {

/// The methods that the relay uses.
#[derive(Clone, Copy, Debug, PartialEq, Eq, Structural)]
pub enum Method {
    Get,
    Post,
}

/// A request, complete but for being sent.
pub struct Outbound {
    pub method: Method,
    pub uri: String,
    pub headers: HeaderMap<HeaderValue>,
    pub body: Bytes,
}

/// What a request says.
pub struct OutboundView {
    pub method: Method,
    pub uri: Seq<char>,
    pub headers: Map<Seq<char>, Seq<(Seq<u8>, bool)>>,
    pub body: Seq<u8>,
}

impl View for Outbound {
    type V = OutboundView;

    open spec fn view(&self) -> OutboundView {
        OutboundView {
            method: self.method,
            uri: self.uri@,
            headers: header::entries(self.headers),
            body: buffer::content(self.body),
        }
    }
}

/// A request is seen as it is.
pub proof fn law_requests_are_seen_as_they_are(request: Outbound)
    ensures
        request@.method == request.method,
        request@.uri == request.uri@,
        request@.headers == header::entries(request.headers),
        request@.body == buffer::content(request.body),
{
}

} // verus!
